//! The exact gate of the three-gate pipeline (exact → vector → fallback): the
//! registered intents with their patterns, BLAKE2b matching of a query against them,
//! and the decision between the gates.

use crate::hash::{blake2b_256, hash_intent, spec_hash_intent};
use vstd::utf8::encode_utf8;
use vstd::prelude::*;

verus! {

/// A registered intent: its label and the patterns that resolve to it exactly.
pub struct IntentRecord {
    pub label: String,
    pub patterns: Vec<String>,
}

/// Texts of a list of strings.
pub open spec fn texts(v: Seq<String>) -> Seq<Seq<char>> {
    v.map_values(|s: String| s@)
}

/// Texts of a list of string slices.
pub open spec fn str_texts(v: Seq<&str>) -> Seq<Seq<char>> {
    v.map_values(|s: &str| s@)
}

impl View for IntentRecord {
    type V = (Seq<char>, Seq<Seq<char>>);

    open spec fn view(&self) -> (Seq<char>, Seq<Seq<char>>) {
        (self.label@, texts(self.patterns@))
    }
}

/// The registered intents, in registration order.
pub struct IntentIndex {
    entries: Vec<IntentRecord>,
}

impl View for IntentIndex {
    type V = Seq<(Seq<char>, Seq<Seq<char>>)>;

    closed spec fn view(&self) -> Seq<(Seq<char>, Seq<Seq<char>>)> {
        self.entries@.map_values(|e: IntentRecord| e@)
    }
}

/// Whether some pattern of `entry` has the same BLAKE2b-256 digest as `intent`.
pub open spec fn hash_matches(entry: (Seq<char>, Seq<Seq<char>>), intent: Seq<char>) -> bool {
    exists|j: int|
        0 <= j < entry.1.len() && spec_hash_intent(#[trigger] entry.1[j]) == spec_hash_intent(
            intent,
        )
}

/// The first entry from `i` on that `hash_matches` the intent.
pub open spec fn first_match_from(
    entries: Seq<(Seq<char>, Seq<Seq<char>>)>,
    intent: Seq<char>,
    i: int,
) -> Option<int>
    decreases entries.len() - i,
{
    if !(0 <= i < entries.len()) {
        None
    } else if hash_matches(entries[i], intent) {
        Some(i)
    } else {
        first_match_from(entries, intent, i + 1)
    }
}

/// Gate 1: the first registered entry with a pattern whose digest is the intent's.
pub open spec fn exact_gate(entries: Seq<(Seq<char>, Seq<Seq<char>>)>, intent: Seq<char>) -> Option<
    int,
> {
    first_match_from(entries, intent, 0)
}

impl IntentIndex {
    /// No intents.
    pub fn new() -> (r: IntentIndex)
        ensures
            r@ == Seq::<(Seq<char>, Seq<Seq<char>>)>::empty(),
    {
        let r = IntentIndex { entries: Vec::new() };
        assert(r@ =~= Seq::<(Seq<char>, Seq<Seq<char>>)>::empty());
        r
    }

    /// Number of registered intents.
    pub fn len(&self) -> (n: usize)
        ensures
            n == self@.len(),
    {
        self.entries.len()
    }

    /// Whether no intent is registered.
    pub fn is_empty(&self) -> (b: bool)
        ensures
            b == (self@.len() == 0),
    {
        self.entries.len() == 0
    }

    /// The label of entry `i`.
    pub fn label(&self, i: usize) -> (l: &String)
        requires
            i < self@.len(),
        ensures
            l@ == self@[i as int].0,
    {
        &self.entries[i].label
    }

    fn add(&mut self, rec: IntentRecord)
        ensures
            final(self)@ == old(self)@.push(rec@),
    {
        self.entries.push(rec);
        assert(final(self)@ =~= old(self)@.push(rec@));
    }

    /// Registers `label` with its patterns; returns the primary pattern, the first one
    /// (empty when there is none), which stands for the intent in vector search.
    pub fn register(&mut self, label: &str, patterns: &[&str]) -> (primary: String)
        ensures
            final(self)@ == old(self)@.push((label@, str_texts(patterns@))),
            primary@ == (if patterns@.len() > 0 {
                patterns@[0]@
            } else {
                Seq::<char>::empty()
            }),
    {
        let mut copies: Vec<String> = Vec::new();
        let mut i: usize = 0;
        while i < patterns.len()
            invariant
                i <= patterns.len(),
                texts(copies@) == str_texts(patterns@).take(i as int),
            decreases patterns.len() - i,
        {
            let p = String::from_str(patterns[i]);
            assert(p@ == str_texts(patterns@)[i as int]);
            let ghost before = copies@;
            copies.push(p);
            assert(copies@ == before.push(p));
            assert(texts(copies@) =~= texts(before).push(p@));
            assert(str_texts(patterns@).take(i + 1) =~= str_texts(patterns@).take(i as int).push(
                p@,
            ));
            i = i + 1;
        }
        assert(str_texts(patterns@).take(i as int) =~= str_texts(patterns@));
        let primary = if patterns.len() > 0 {
            String::from_str(patterns[0])
        } else {
            String::new()
        };
        self.add(IntentRecord { label: String::from_str(label), patterns: copies });
        primary
    }

    /// Registers `label` as an intent whose only pattern is the label itself.
    pub fn register_label(&mut self, label: &str)
        ensures
            final(self)@ == old(self)@.push((label@, seq![label@])),
    {
        let mut patterns: Vec<String> = Vec::new();
        patterns.push(String::from_str(label));
        assert(texts(patterns@) =~= seq![label@]);
        let rec = IntentRecord { label: String::from_str(label), patterns };
        assert(rec@ == (label@, seq![label@]));
        self.add(rec);
    }

    /// Gate 1: the first entry that has a pattern with the same BLAKE2b-256 digest as
    /// `intent`.
    pub fn exact_match(&self, intent: &str) -> (r: Option<usize>)
        ensures
            match r {
                Some(i) => exact_gate(self@, intent@) == Some(i as int),
                None => exact_gate(self@, intent@) is None,
            },
    {
        let query = hash_intent(intent);
        let mut i: usize = 0;
        while i < self.entries.len()
            invariant
                i <= self.entries.len(),
                query@ == spec_hash_intent(intent@),
                exact_gate(self@, intent@) == first_match_from(self@, intent@, i as int),
            decreases self.entries.len() - i,
        {
            let entry = &self.entries[i];
            assert(self@[i as int] == entry@);
            let mut j: usize = 0;
            while j < entry.patterns.len()
                invariant
                    j <= entry.patterns.len(),
                    query@ == spec_hash_intent(intent@),
                    i < self.entries.len(),
                    self@[i as int] == entry@,
                    exact_gate(self@, intent@) == first_match_from(self@, intent@, i as int),
                    forall|k: int|
                        0 <= k < j ==> spec_hash_intent(#[trigger] entry@.1[k]) != spec_hash_intent(
                            intent@,
                        ),
                decreases entry.patterns.len() - j,
            {
                let h = hash_intent(entry.patterns[j].as_str());
                assert(entry@.1[j as int] == entry.patterns[j as int]@);
                if query.same_digest(&h) {
                    assert(hash_matches(entry@, intent@));
                    return Some(i);
                }
                j = j + 1;
            }
            assert(!hash_matches(entry@, intent@));
            i = i + 1;
        }
        None
    }
}

/// Which gate resolved an intent, with the entry it points to.
#[derive(Clone, Copy, Debug, PartialEq, Eq)]
pub enum GateDecision {
    /// Gate 1: exact hash match on the entry.
    Exact(usize),
    /// Gate 2: the nearest entry is at or above the similarity threshold.
    Vector(usize),
    /// Gate 3: unresolved, with the nearest entry if there is one.
    Unresolved(Option<usize>),
}

impl GateDecision {
    /// The decision of the pipeline, given the exact gate's result and the nearest entry
    /// by vector similarity with whether its score reaches the threshold: an exact match
    /// wins; else the nearest entry resolves if it reaches the threshold; else nothing
    /// resolves.
    pub fn decide(exact: Option<usize>, nearest: Option<(usize, bool)>) -> (d: GateDecision)
        ensures
            d == (match exact {
                Some(i) => GateDecision::Exact(i),
                None => match nearest {
                    Some((i, true)) => GateDecision::Vector(i),
                    Some((i, false)) => GateDecision::Unresolved(Some(i)),
                    None => GateDecision::Unresolved(None),
                },
            }),
    {
        match exact {
            Some(i) => GateDecision::Exact(i),
            None => match nearest {
                Some((i, passes)) => if passes {
                    GateDecision::Vector(i)
                } else {
                    GateDecision::Unresolved(Some(i))
                },
                None => GateDecision::Unresolved(None),
            },
        }
    }

    /// Which gate resolved the intent: 1, 2 or 3.
    pub fn gate_number(&self) -> (n: u8)
        ensures
            n == (match self {
                GateDecision::Exact(_) => 1u8,
                GateDecision::Vector(_) => 2u8,
                GateDecision::Unresolved(_) => 3u8,
            }),
    {
        match self {
            GateDecision::Exact(_) => 1,
            GateDecision::Vector(_) => 2,
            GateDecision::Unresolved(_) => 3,
        }
    }

    /// The entry the decision names, if any.
    pub fn entry(&self) -> (e: Option<usize>)
        ensures
            e == (match self {
                GateDecision::Exact(i) => Some(*i),
                GateDecision::Vector(i) => Some(*i),
                GateDecision::Unresolved(o) => *o,
            }),
    {
        match self {
            GateDecision::Exact(i) => Some(*i),
            GateDecision::Vector(i) => Some(*i),
            GateDecision::Unresolved(o) => *o,
        }
    }
}


proof fn lemma_first_match_at_most(
    entries: Seq<(Seq<char>, Seq<Seq<char>>)>,
    intent: Seq<char>,
    i: int,
    m: int,
)
    requires
        0 <= i <= m < entries.len(),
        hash_matches(entries[m], intent),
    ensures
        first_match_from(entries, intent, i) matches Some(k) && i <= k <= m && hash_matches(
            entries[k],
            intent,
        ),
    decreases m - i,
{
    if !hash_matches(entries[i], intent) {
        lemma_first_match_at_most(entries, intent, i + 1, m);
    }
}

/// Gate 1 catches every registered pattern: an intent that is a pattern of entry `m`
/// resolves exactly, to entry `m` or to an earlier entry with a pattern of the same
/// digest.
pub proof fn registered_pattern_resolves_exactly(
    entries: Seq<(Seq<char>, Seq<Seq<char>>)>,
    intent: Seq<char>,
    m: int,
    j: int,
)
    requires
        0 <= m < entries.len(),
        0 <= j < entries[m].1.len(),
        entries[m].1[j] == intent,
    ensures
        exact_gate(entries, intent) matches Some(k) && k <= m && hash_matches(
            entries[k],
            intent,
        ),
{
    assert(hash_matches(entries[m], intent));
    lemma_first_match_at_most(entries, intent, 0, m);
}


proof fn lemma_first_match_push(
    entries: Seq<(Seq<char>, Seq<Seq<char>>)>,
    new_entry: (Seq<char>, Seq<Seq<char>>),
    intent: Seq<char>,
    i: int,
)
    requires
        0 <= i <= entries.len(),
    ensures
        first_match_from(entries.push(new_entry), intent, i) == (match first_match_from(
            entries,
            intent,
            i,
        ) {
            Some(k) => Some(k),
            None => if hash_matches(new_entry, intent) {
                Some(entries.len() as int)
            } else {
                None
            },
        }),
    decreases entries.len() - i,
{
    let e2 = entries.push(new_entry);
    if i < entries.len() {
        assert(e2[i] == entries[i]);
        lemma_first_match_push(entries, new_entry, intent, i + 1);
    } else {
        assert(e2[i] == new_entry);
        assert(first_match_from(e2, intent, i + 1) is None);
    }
}

/// Registering an entry keeps every earlier exact result, and an intent that no
/// earlier entry matched now resolves exactly to the new entry when one of its
/// patterns has the intent's digest (in particular when the intent is one of its
/// patterns); otherwise it still has no exact match.
pub proof fn registration_extends_exact_gate(
    entries: Seq<(Seq<char>, Seq<Seq<char>>)>,
    new_entry: (Seq<char>, Seq<Seq<char>>),
    intent: Seq<char>,
)
    ensures
        exact_gate(entries, intent) matches Some(k) ==> exact_gate(entries.push(new_entry), intent)
            == Some(k),
        exact_gate(entries, intent) is None ==> exact_gate(entries.push(new_entry), intent) == (
        if hash_matches(new_entry, intent) {
            Some(entries.len() as int)
        } else {
            None
        }),
        exact_gate(entries, intent) is None && new_entry.1.contains(intent) ==> exact_gate(
            entries.push(new_entry),
            intent,
        ) == Some(entries.len() as int),
{
    lemma_first_match_push(entries, new_entry, intent, 0);
    if new_entry.1.contains(intent) {
        let j = choose|j: int| 0 <= j < new_entry.1.len() && new_entry.1[j] == intent;
        assert(hash_matches(new_entry, intent));
    }
}


/// Whether pattern `j` of entry `k` has exactly the BLAKE2b-256 digest of `intent`
/// (all 32 bytes of the digest of its UTF-8 bytes).
pub open spec fn pattern_digest_equals(
    entries: Seq<(Seq<char>, Seq<Seq<char>>)>,
    k: int,
    j: int,
    intent: Seq<char>,
) -> bool {
    blake2b_256(encode_utf8(entries[k].1[j])) == blake2b_256(encode_utf8(intent))
}

proof fn lemma_first_match_from_whole(
    entries: Seq<(Seq<char>, Seq<Seq<char>>)>,
    intent: Seq<char>,
    i: int,
)
    requires
        0 <= i,
    ensures
        match first_match_from(entries, intent, i) {
            Some(k) => {
                &&& i <= k < entries.len()
                &&& exists|j: int|
                    0 <= j < entries[k].1.len() && #[trigger] pattern_digest_equals(
                        entries,
                        k,
                        j,
                        intent,
                    )
                &&& forall|k2: int, j: int|
                    i <= k2 < k && 0 <= j < entries[k2].1.len() ==> !#[trigger] pattern_digest_equals(
                        entries,
                        k2,
                        j,
                        intent,
                    )
            },
            None => forall|k2: int, j: int|
                i <= k2 < entries.len() && 0 <= j < entries[k2].1.len()
                    ==> !#[trigger] pattern_digest_equals(entries, k2, j, intent),
        },
    decreases entries.len() - i,
{
    if i < entries.len() {
        lemma_first_match_from_whole(entries, intent, i + 1);
        if hash_matches(entries[i], intent) {
            let j = choose|j: int|
                0 <= j < entries[i].1.len() && spec_hash_intent(#[trigger] entries[i].1[j])
                    == spec_hash_intent(intent);
            assert(pattern_digest_equals(entries, i, j, intent));
        } else {
            assert forall|j: int| 0 <= j < entries[i].1.len() implies !#[trigger] pattern_digest_equals(
                entries,
                i,
                j,
                intent,
            ) by {
                assert(spec_hash_intent(entries[i].1[j]) != spec_hash_intent(intent));
            }
            match first_match_from(entries, intent, i + 1) {
                Some(k) => {
                    assert forall|k2: int, j: int|
                        i <= k2 < k && 0 <= j < entries[k2].1.len() implies !#[trigger] pattern_digest_equals(
                            entries,
                            k2,
                            j,
                            intent,
                        ) by {
                        if k2 == i {
                        }
                    }
                },
                None => {
                    assert forall|k2: int, j: int|
                        i <= k2 < entries.len() && 0 <= j < entries[k2].1.len() implies !#[trigger] pattern_digest_equals(
                            entries,
                            k2,
                            j,
                            intent,
                        ) by {
                        if k2 == i {
                        }
                    }
                },
            }
        }
    }
}

/// Gate 1 compares whole digests: it resolves to entry `k` only when some pattern of
/// `k` has exactly the intent's BLAKE2b-256 digest (all 32 bytes of the digest of its
/// UTF-8 bytes), no earlier entry has such a pattern, and it resolves nothing when no
/// entry has one.
pub proof fn exact_gate_compares_whole_digests(
    entries: Seq<(Seq<char>, Seq<Seq<char>>)>,
    intent: Seq<char>,
)
    ensures
        match exact_gate(entries, intent) {
            Some(k) => {
                &&& 0 <= k < entries.len()
                &&& exists|j: int|
                    0 <= j < entries[k].1.len() && #[trigger] pattern_digest_equals(
                        entries,
                        k,
                        j,
                        intent,
                    )
                &&& forall|k2: int, j: int|
                    0 <= k2 < k && 0 <= j < entries[k2].1.len() ==> !#[trigger] pattern_digest_equals(
                        entries,
                        k2,
                        j,
                        intent,
                    )
            },
            None => forall|k2: int, j: int|
                0 <= k2 < entries.len() && 0 <= j < entries[k2].1.len()
                    ==> !#[trigger] pattern_digest_equals(entries, k2, j, intent),
        },
{
    lemma_first_match_from_whole(entries, intent, 0);
}

} // verus!
