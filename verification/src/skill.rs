//! Skill pack parser: parse "intent: {{param}}" templates, validate and render them.

use crate::text::{
    chars_of, find_char, find_from_is_first, trim_by, trim_is_part_of, replace_all, replace_chars, string_of_all, find_in, line_ranges, range_is, split_lines, split_once, string_of, trim, trim_quotes,
    trim_range,
};
use vstd::prelude::*;
use vstd::string::StringExecFns;

verus! {

/// A parsed skill template parameter.
#[derive(Clone, Debug, PartialEq)]
pub struct Param {
    pub name: String,
    pub required: bool,
    pub default: Option<String>,
}

/// A single skill entry.
#[derive(Clone, Debug, PartialEq)]
pub struct Skill {
    pub intent: String,
    pub params: Vec<Param>,
    pub raw_template: String,
}

/// A skill pack (collection of skills).
#[derive(Clone, Debug, PartialEq)]
pub struct SkillPack {
    pub name: String,
    pub version: String,
    pub skills: Vec<Skill>,
}

/// What a `Param` holds, as text.
pub struct ParamModel {
    pub name: Seq<char>,
    pub required: bool,
    pub default: Option<Seq<char>>,
}

/// What a `Skill` holds, as text.
pub struct SkillModel {
    pub intent: Seq<char>,
    pub params: Seq<ParamModel>,
    pub raw_template: Seq<char>,
}

/// What a `SkillPack` holds, as text.
pub struct SkillPackModel {
    pub name: Seq<char>,
    pub version: Seq<char>,
    pub skills: Seq<SkillModel>,
}

pub open spec fn opt_view(o: Option<String>) -> Option<Seq<char>> {
    match o {
        Some(s) => Some(s@),
        None => None,
    }
}

impl View for Param {
    type V = ParamModel;

    open spec fn view(&self) -> ParamModel {
        ParamModel { name: self.name@, required: self.required, default: opt_view(self.default) }
    }
}

pub open spec fn params_view(ps: Seq<Param>) -> Seq<ParamModel> {
    ps.map_values(|p: Param| p@)
}

impl View for Skill {
    type V = SkillModel;

    open spec fn view(&self) -> SkillModel {
        SkillModel {
            intent: self.intent@,
            params: params_view(self.params@),
            raw_template: self.raw_template@,
        }
    }
}

pub open spec fn skills_view(ss: Seq<Skill>) -> Seq<SkillModel> {
    ss.map_values(|s: Skill| s@)
}

impl View for SkillPack {
    type V = SkillPackModel;

    open spec fn view(&self) -> SkillPackModel {
        SkillPackModel { name: self.name@, version: self.version@, skills: skills_view(self.skills@) }
    }
}

/// Error while parsing a skill pack.
#[derive(Debug)]
pub enum SkillParseError {
    InvalidParam(String),
}

/// Error while rendering a skill template.
#[derive(Debug)]
pub enum RenderError {
    InvalidIndex,
    MissingRequired(String),
}

/// The message of the one parse error: a placeholder with nothing but whitespace in it.
pub open spec fn empty_param_msg() -> Seq<char> {
    "empty param name"@
}

/// The parameter that the text between `{{` and `}}` declares:
/// `name` is required, `name?` optional, `name?default` optional with a default.
pub open spec fn param_of(content: Seq<char>) -> Result<ParamModel, Seq<char>> {
    let c = trim(content);
    if c.len() == 0 {
        Err(empty_param_msg())
    } else {
        match find_char(c, '?') {
            Some(i) => {
                let d = trim(c.skip(i + 1));
                Ok(
                    ParamModel {
                        name: trim(c.take(i)),
                        required: false,
                        default: if d.len() == 0 {
                            None
                        } else {
                            Some(d)
                        },
                    },
                )
            },
            None => Ok(ParamModel { name: c, required: true, default: None }),
        }
    }
}

/// `ps` with `p` appended, unless a parameter of that name is already in it.
pub open spec fn add_unique(ps: Seq<ParamModel>, p: ParamModel) -> Seq<ParamModel> {
    if exists|k: int| 0 <= k < ps.len() && (#[trigger] ps[k]).name == p.name {
        ps
    } else {
        ps.push(p)
    }
}

/// The placeholder scan of a template from position `i`, in state
/// (`params` found so far, inside `{{`, text collected since the last `{{`).
/// `{{` opens a placeholder, `}}` closes one and declares the parameter collected;
/// a lone `{` or `}` is dropped; other characters are collected inside a placeholder.
pub open spec fn scan_params(
    t: Seq<char>,
    i: int,
    params: Seq<ParamModel>,
    in_brace: bool,
    content: Seq<char>,
) -> Result<Seq<ParamModel>, Seq<char>>
    decreases t.len() - i,
{
    if !(0 <= i < t.len()) {
        Ok(params)
    } else if t[i] == '{' {
        if i + 1 < t.len() && t[i + 1] == '{' {
            scan_params(t, i + 2, params, true, Seq::empty())
        } else {
            scan_params(t, i + 1, params, in_brace, content)
        }
    } else if t[i] == '}' {
        if i + 1 < t.len() && t[i + 1] == '}' {
            match param_of(content) {
                Err(e) => Err(e),
                Ok(p) => scan_params(t, i + 2, add_unique(params, p), false, content),
            }
        } else {
            scan_params(t, i + 1, params, in_brace, content)
        }
    } else if in_brace {
        scan_params(t, i + 1, params, in_brace, content.push(t[i]))
    } else {
        scan_params(t, i + 1, params, in_brace, content)
    }
}

/// The parameters a template declares, in order of first appearance.
pub open spec fn params_of(t: Seq<char>) -> Result<Seq<ParamModel>, Seq<char>> {
    scan_params(t, 0, Seq::empty(), false, Seq::empty())
}

/// The parameter declared by `v[lo..hi]`.
fn parse_param_content(v: &Vec<char>, lo: usize, hi: usize) -> (r: Result<Param, SkillParseError>)
    requires
        lo <= hi <= v.len(),
    ensures
        match r {
            Ok(p) => param_of(v@.subrange(lo as int, hi as int)) == Ok::<ParamModel, Seq<char>>(p@),
            Err(SkillParseError::InvalidParam(m)) => param_of(v@.subrange(lo as int, hi as int))
                == Err::<ParamModel, Seq<char>>(m@),
        },
{
    let ghost s = v@.subrange(lo as int, hi as int);
    let (a, b) = trim_range(v, lo, hi, false);
    let ghost c = v@.subrange(a as int, b as int);
    if a == b {
        return Err(SkillParseError::InvalidParam(String::from_str("empty param name")));
    }
    match find_in(v, a, b, '?') {
        Some(k) => {
            let (na, nb) = trim_range(v, a, a + k, false);
            let (da, db) = trim_range(v, a + k + 1, b, false);
            assert(c.take(k as int) =~= v@.subrange(a as int, a + k));
            assert(c.skip(k + 1) =~= v@.subrange(a + k + 1, b as int));
            let name = string_of(v, na, nb);
            let default = if da == db {
                None
            } else {
                Some(string_of(v, da, db))
            };
            Ok(Param { name, required: false, default })
        },
        None => Ok(Param { name: string_of(v, a, b), required: true, default: None }),
    }
}


/// Whether a parameter named `name` is in `ps`.
fn has_param(ps: &Vec<Param>, name: &String) -> (r: bool)
    ensures
        r == exists|k: int|
            0 <= k < ps.len() && (#[trigger] params_view(ps@)[k]).name == name@,
{
    let mut i: usize = 0;
    while i < ps.len()
        invariant
            i <= ps.len(),
            forall|k: int| 0 <= k < i ==> (#[trigger] params_view(ps@)[k]).name != name@,
        decreases ps.len() - i,
    {
        if ps[i].name == *name {
            assert(params_view(ps@)[i as int].name == name@);
            return true;
        }
        i = i + 1;
    }
    false
}

/// The parameters declared by the template `v[lo..hi]`.
fn parse_params(v: &Vec<char>, lo: usize, hi: usize) -> (r: Result<Vec<Param>, SkillParseError>)
    requires
        lo <= hi <= v.len(),
    ensures
        match r {
            Ok(ps) => params_of(v@.subrange(lo as int, hi as int)) == Ok::<
                Seq<ParamModel>,
                Seq<char>,
            >(params_view(ps@)),
            Err(SkillParseError::InvalidParam(m)) => params_of(v@.subrange(lo as int, hi as int))
                == Err::<Seq<ParamModel>, Seq<char>>(m@),
        },
{
    let ghost t = v@.subrange(lo as int, hi as int);
    let mut params: Vec<Param> = Vec::new();
    let mut in_brace = false;
    let mut content: Vec<char> = Vec::new();
    let mut i = lo;
    assert(params_view(params@) =~= Seq::<ParamModel>::empty());
    while i < hi
        invariant
            lo <= i <= hi <= v.len(),
            t == v@.subrange(lo as int, hi as int),
            params_of(t) == scan_params(t, i - lo, params_view(params@), in_brace, content@),
        decreases hi - i,
    {
        let c = v[i];
        assert(t[i - lo] == c);
        if c == '{' {
            if i + 1 < hi && v[i + 1] == '{' {
                assert(t[i + 1 - lo] == v@[i + 1]);
                in_brace = true;
                content = Vec::new();
                i = i + 2;
            } else {
                assert(i + 1 < hi ==> t[i + 1 - lo] == v@[i + 1]);
                i = i + 1;
            }
        } else if c == '}' {
            if i + 1 < hi && v[i + 1] == '}' {
                assert(t[i + 1 - lo] == v@[i + 1]);
                assert(content@.subrange(0, content@.len() as int) =~= content@);
                match parse_param_content(&content, 0, content.len()) {
                    Err(e) => {
                        return Err(e);
                    },
                    Ok(p) => {
                        let ghost before = params_view(params@);
                        if !has_param(&params, &p.name) {
                            params.push(p);
                            assert(params_view(params@) =~= before.push(p@));
                        }
                    },
                }
                in_brace = false;
                i = i + 2;
            } else {
                assert(i + 1 < hi ==> t[i + 1 - lo] == v@[i + 1]);
                i = i + 1;
            }
        } else {
            if in_brace {
                content.push(c);
            }
            i = i + 1;
        }
    }
    Ok(params)
}


/// The skill that one line of a pack declares: `None` for a blank line, a `#` comment
/// or a line without `:`; otherwise `intent: template`, both trimmed.
pub open spec fn skill_line(line: Seq<char>) -> Option<Result<SkillModel, Seq<char>>> {
    let t = trim(line);
    if t.len() == 0 || t[0] == '#' {
        None
    } else {
        match split_once(t, ':') {
            None => None,
            Some((a, b)) => {
                let tmpl = trim(b);
                match params_of(tmpl) {
                    Err(e) => Some(Err(e)),
                    Ok(ps) => Some(Ok(SkillModel { intent: trim(a), params: ps, raw_template: tmpl })),
                }
            },
        }
    }
}

/// The skills declared by the lines `ls[i..]`, after `acc`; the first bad line's error.
pub open spec fn skills_from(ls: Seq<Seq<char>>, i: int, acc: Seq<SkillModel>) -> Result<
    Seq<SkillModel>,
    Seq<char>,
>
    decreases ls.len() - i,
{
    if !(0 <= i < ls.len()) {
        Ok(acc)
    } else {
        match skill_line(ls[i]) {
            None => skills_from(ls, i + 1, acc),
            Some(Err(e)) => Err(e),
            Some(Ok(sk)) => skills_from(ls, i + 1, acc.push(sk)),
        }
    }
}

/// The front matter read from line `i` on, with the `name` and `version` seen so far:
/// the final name and version, and the line after the closing `---` (or the line count).
pub open spec fn front_matter(ls: Seq<Seq<char>>, i: int, name: Seq<char>, version: Seq<char>) -> (
    Seq<char>,
    Seq<char>,
    int,
)
    decreases ls.len() - i,
{
    if !(0 <= i < ls.len()) {
        (name, version, ls.len() as int)
    } else {
        let t = trim(ls[i]);
        if t == "---"@ {
            (name, version, i + 1)
        } else {
            match split_once(t, ':') {
                Some((k, val)) => if trim(k) == "name"@ {
                    front_matter(ls, i + 1, trim_quotes(trim(val)), version)
                } else if trim(k) == "version"@ {
                    front_matter(ls, i + 1, name, trim_quotes(trim(val)))
                } else {
                    front_matter(ls, i + 1, name, version)
                },
                None => front_matter(ls, i + 1, name, version),
            }
        }
    }
}

/// The pack named `name` and `version` with the skills `skills`, or the error.
pub open spec fn pack_with(name: Seq<char>, version: Seq<char>, skills: Result<Seq<SkillModel>, Seq<char>>) -> Result<SkillPackModel, Seq<char>> {
    match skills {
        Ok(skills) => Ok(SkillPackModel { name, version, skills }),
        Err(e) => Err(e),
    }
}

/// The skill pack that `input` describes: optional front matter between `---` lines
/// (keys `name` and `version`, defaults `unnamed` and `0.1.0`), then one skill per line.
pub open spec fn pack_of(input: Seq<char>) -> Result<SkillPackModel, Seq<char>> {
    let ls = split_lines(input);
    let (name, version, start) = if trim(ls[0]) == "---"@ {
        front_matter(ls, 1, "unnamed"@, "0.1.0"@)
    } else {
        ("unnamed"@, "0.1.0"@, 0int)
    };
    pack_with(name, version, skills_from(ls, start, Seq::empty()))
}

/// The skill declared by the line `v[lo..hi]`.
fn parse_skill_line(v: &Vec<char>, lo: usize, hi: usize) -> (r: Option<Result<Skill, SkillParseError>>)
    requires
        lo <= hi <= v.len(),
    ensures
        match r {
            None => skill_line(v@.subrange(lo as int, hi as int)) is None,
            Some(Ok(sk)) => skill_line(v@.subrange(lo as int, hi as int)) == Some(
                Ok::<SkillModel, Seq<char>>(sk@),
            ),
            Some(Err(SkillParseError::InvalidParam(m))) => skill_line(
                v@.subrange(lo as int, hi as int),
            ) == Some(Err::<SkillModel, Seq<char>>(m@)),
        },
{
    let (a, b) = trim_range(v, lo, hi, false);
    let ghost t = v@.subrange(a as int, b as int);
    if a == b {
        return None;
    }
    assert(t[0] == v@[a as int]);
    if v[a] == '#' {
        return None;
    }
    match find_in(v, a, b, ':') {
        None => None,
        Some(k) => {
            assert(t.take(k as int) =~= v@.subrange(a as int, a + k));
            assert(t.skip(k + 1) =~= v@.subrange(a + k + 1, b as int));
            let (ia, ib) = trim_range(v, a, a + k, false);
            let (ta, tb) = trim_range(v, a + k + 1, b, false);
            match parse_params(v, ta, tb) {
                Err(e) => Some(Err(e)),
                Ok(params) => Some(
                    Ok(
                        Skill {
                            intent: string_of(v, ia, ib),
                            params,
                            raw_template: string_of(v, ta, tb),
                        },
                    ),
                ),
            }
        },
    }
}


/// Reads front matter from line `i` on (see `front_matter`).
fn read_front_matter(v: &Vec<char>, lines: &Vec<(usize, usize)>, i: usize) -> (r: (
    String,
    String,
    usize,
))
    requires
        lines.len() == split_lines(v@).len(),
        forall|k: int|
            0 <= k < lines.len() ==> {
                &&& (#[trigger] lines[k]).0 <= lines[k].1 <= v.len()
                &&& v@.subrange(lines[k].0 as int, lines[k].1 as int) == split_lines(v@)[k]
            },
        i <= lines.len(),
    ensures
        front_matter(split_lines(v@), i as int, "unnamed"@, "0.1.0"@) == (r.0@, r.1@, r.2 as int),
        r.2 <= lines.len(),
{
    let ghost ls = split_lines(v@);
    let mut name = String::from_str("unnamed");
    let mut version = String::from_str("0.1.0");
    let mut k = i;
    while k < lines.len()
        invariant
            i <= k <= lines.len(),
            lines.len() == ls.len(),
            ls == split_lines(v@),
            forall|j: int|
                0 <= j < lines.len() ==> {
                    &&& (#[trigger] lines[j]).0 <= lines[j].1 <= v.len()
                    &&& v@.subrange(lines[j].0 as int, lines[j].1 as int) == ls[j]
                },
            front_matter(ls, i as int, "unnamed"@, "0.1.0"@) == front_matter(
                ls,
                k as int,
                name@,
                version@,
            ),
        decreases lines.len() - k,
    {
        let (lo, hi) = lines[k];
        let (a, b) = trim_range(v, lo, hi, false);
        let ghost t = v@.subrange(a as int, b as int);
        if range_is(v, a, b, "---") {
            return (name, version, k + 1);
        }
        match find_in(v, a, b, ':') {
            Some(c) => {
                assert(t.take(c as int) =~= v@.subrange(a as int, a + c));
                assert(t.skip(c + 1) =~= v@.subrange(a + c + 1, b as int));
                let (ka, kb) = trim_range(v, a, a + c, false);
                let (va, vb) = trim_range(v, a + c + 1, b, false);
                if range_is(v, ka, kb, "name") {
                    let (qa, qb) = trim_range(v, va, vb, true);
                    name = string_of(v, qa, qb);
                } else if range_is(v, ka, kb, "version") {
                    let (qa, qb) = trim_range(v, va, vb, true);
                    version = string_of(v, qa, qb);
                }
            },
            None => {},
        }
        k = k + 1;
    }
    (name, version, k)
}

impl SkillPack {
    /// Parse a skill pack from text.
    ///
    /// Format:
    /// ```text
    /// ---
    /// name: my-pack
    /// version: "1.0"
    /// ---
    /// intent_name: do something with {{param1}} and {{param2?}}
    /// another_intent: {{required}} goes here {{optional?default_value}}
    /// ```
    ///
    /// Parameters:
    /// - `{{name}}` — required
    /// - `{{name?}}` — optional
    /// - `{{name?default}}` — optional with default value
    pub fn parse(input: &str) -> (r: Result<SkillPack, SkillParseError>)
        ensures
            match r {
                Ok(pack) => pack_of(input@) == Ok::<SkillPackModel, Seq<char>>(pack@),
                Err(SkillParseError::InvalidParam(m)) => pack_of(input@) == Err::<
                    SkillPackModel,
                    Seq<char>,
                >(m@),
            },
    {
        let v = chars_of(input);
        let lines = line_ranges(&v);
        let ghost ls = split_lines(v@);
        let (lo0, hi0) = lines[0];
        assert(v@.subrange(lo0 as int, hi0 as int) == ls[0]) by {
            assert(lines@[0] == lines[0]);
        }
        let (a0, b0) = trim_range(&v, lo0, hi0, false);
        let fm = range_is(&v, a0, b0, "---");
        assert(fm == (trim(ls[0]) == "---"@));
        let (name, version, start) = if fm {
            read_front_matter(&v, &lines, 1)
        } else {
            (String::from_str("unnamed"), String::from_str("0.1.0"), 0)
        };
        assert(pack_of(input@) == pack_with(name@, version@, skills_from(ls, start as int, Seq::empty())));
        let mut skills: Vec<Skill> = Vec::new();
        let mut k = start;
        assert(skills_view(skills@) =~= Seq::<SkillModel>::empty());
        while k < lines.len()
            invariant
                start <= k <= lines.len(),
                lines.len() == ls.len(),
                ls == split_lines(v@),
                forall|j: int|
                    0 <= j < lines.len() ==> {
                        &&& (#[trigger] lines[j]).0 <= lines[j].1 <= v.len()
                        &&& v@.subrange(lines[j].0 as int, lines[j].1 as int) == ls[j]
                    },
                pack_of(input@) == pack_with(
                    name@,
                    version@,
                    skills_from(ls, start as int, Seq::empty()),
                ),
                skills_from(ls, start as int, Seq::empty()) == skills_from(
                    ls,
                    k as int,
                    skills_view(skills@),
                ),
            decreases lines.len() - k,
        {
            let (lo, hi) = lines[k];
            match parse_skill_line(&v, lo, hi) {
                None => {},
                Some(Err(e)) => {
                    return Err(e);
                },
                Some(Ok(sk)) => {
                    let ghost before = skills_view(skills@);
                    skills.push(sk);
                    assert(skills_view(skills@) =~= before.push(sk@));
                },
            }
            k = k + 1;
        }
        Ok(SkillPack { name, version, skills })
    }
}


/// Parameter values for rendering: a map from parameter name to value, at most one
/// value per name.
pub struct ParamValues {
    entries: Vec<(String, String)>,
}

impl ParamValues {
    #[verifier::type_invariant]
    spec fn keys_distinct(&self) -> bool {
        forall|i: int, j: int|
            0 <= i < j < self.entries.len() ==> (#[trigger] self.entries[i]).0@ != (
            #[trigger] self.entries[j]).0@
    }

    spec fn has_key_at(&self, k: Seq<char>, i: int) -> bool {
        0 <= i < self.entries.len() && self.entries[i].0@ == k
    }
}

impl View for ParamValues {
    type V = Map<Seq<char>, Seq<char>>;

    closed spec fn view(&self) -> Map<Seq<char>, Seq<char>> {
        Map::new(
            |k: Seq<char>| exists|i: int| self.has_key_at(k, i),
            |k: Seq<char>| self.entries[choose|i: int| self.has_key_at(k, i)].1@,
        )
    }
}

impl ParamValues {
    /// An empty set of values.
    pub fn new() -> (r: ParamValues)
        ensures
            r@ == Map::<Seq<char>, Seq<char>>::empty(),
    {
        let r = ParamValues { entries: Vec::new() };
        assert(r@ =~= Map::<Seq<char>, Seq<char>>::empty());
        r
    }

    /// Index of the entry for `key`.
    fn position(&self, key: &String) -> (r: Option<usize>)
        ensures
            match r {
                Some(i) => self.has_key_at(key@, i as int),
                None => forall|i: int| !self.has_key_at(key@, i),
            },
    {
        let mut i: usize = 0;
        while i < self.entries.len()
            invariant
                i <= self.entries.len(),
                forall|j: int| 0 <= j < i ==> !self.has_key_at(key@, j),
            decreases self.entries.len() - i,
        {
            if self.entries[i].0 == *key {
                return Some(i);
            }
            i = i + 1;
        }
        None
    }

    /// Whether there is a value for `key`.
    pub fn contains_key(&self, key: &str) -> (r: bool)
        ensures
            r == self@.contains_key(key@),
    {
        let k = String::from_str(key);
        self.position(&k).is_some()
    }

    /// The value for `key`, if any.
    pub fn get(&self, key: &str) -> (r: Option<&String>)
        ensures
            match r {
                Some(v) => self@.contains_key(key@) && v@ == self@[key@],
                None => !self@.contains_key(key@),
            },
    {
        proof {
            use_type_invariant(self);
        }
        let k = String::from_str(key);
        match self.position(&k) {
            Some(i) => {
                let ghost c = choose|j: int| self.has_key_at(key@, j);
                assert(self.has_key_at(key@, i as int));
                assert(c == i as int) by {
                    if c < i {
                        assert(self.entries[c].0@ != self.entries[i as int].0@);
                    } else if c > i {
                        assert(self.entries[i as int].0@ != self.entries[c].0@);
                    }
                }
                Some(&self.entries[i].1)
            },
            None => None,
        }
    }

    /// Sets the value for `key`, replacing any earlier one.
    pub fn insert(&mut self, key: &str, value: &str)
        ensures
            final(self)@ == old(self)@.insert(key@, value@),
    {
        proof {
            use_type_invariant(&*self);
        }
        let k = String::from_str(key);
        let v = String::from_str(value);
        let ghost old_self = *self;
        match self.position(&k) {
            Some(i) => {
                let mut entries: Vec<(String, String)> = Vec::new();
                std::mem::swap(&mut entries, &mut self.entries);
                entries.set(i, (k, v));
                assert forall|a: int, b: int|
                    0 <= a < b < entries.len() implies (#[trigger] entries[a]).0@ != (
                    #[trigger] entries[b]).0@ by {
                    assert(old_self.entries[a].0@ != old_self.entries[b].0@);
                }
                self.entries = entries;
                proof {
                    self.lemma_view_after_set(old_self, i as int, key@, value@);
                }
            },
            None => {
                let mut entries: Vec<(String, String)> = Vec::new();
                std::mem::swap(&mut entries, &mut self.entries);
                entries.push((k, v));
                assert forall|a: int, b: int|
                    0 <= a < b < entries.len() implies (#[trigger] entries[a]).0@ != (
                    #[trigger] entries[b]).0@ by {
                    if b < old_self.entries.len() {
                        assert(old_self.entries[a].0@ != old_self.entries[b].0@);
                    } else {
                        assert(!old_self.has_key_at(key@, a));
                    }
                }
                self.entries = entries;
                proof {
                    self.lemma_view_after_push(old_self, key@, value@);
                }
            },
        }
    }

    proof fn lemma_view_after_set(self, old_self: ParamValues, i: int, k: Seq<char>, v: Seq<char>)
        requires
            old_self.keys_distinct(),
            self.keys_distinct(),
            old_self.has_key_at(k, i),
            self.entries@ == old_self.entries@.update(i, self.entries[i]),
            self.entries[i].0@ == k,
            self.entries[i].1@ == v,
        ensures
            self@ == old_self@.insert(k, v),
    {
        assert forall|key: Seq<char>| #[trigger] self@.contains_key(key) == old_self@.insert(
            k,
            v,
        ).contains_key(key) by {
            if key == k {
                assert(self.has_key_at(k, i));
            } else {
                if old_self@.contains_key(key) {
                    let j = choose|j: int| old_self.has_key_at(key, j);
                    assert(self.has_key_at(key, j));
                }
                if self@.contains_key(key) {
                    let j = choose|j: int| self.has_key_at(key, j);
                    assert(old_self.has_key_at(key, j));
                }
            }
        }
        assert forall|key: Seq<char>| #[trigger] self@.contains_key(key) implies self@[key]
            == old_self@.insert(k, v)[key] by {
            let j = choose|j: int| self.has_key_at(key, j);
            if key == k {
                assert(self.has_key_at(k, i));
                if j != i {
                    if j < i {
                        assert(self.entries[j].0@ != self.entries[i].0@);
                    } else {
                        assert(self.entries[i].0@ != self.entries[j].0@);
                    }
                }
            } else {
                assert(old_self.has_key_at(key, j));
                let j2 = choose|j2: int| old_self.has_key_at(key, j2);
                if j2 != j {
                    if j2 < j {
                        assert(old_self.entries[j2].0@ != old_self.entries[j].0@);
                    } else {
                        assert(old_self.entries[j].0@ != old_self.entries[j2].0@);
                    }
                }
            }
        }
        assert(self@ =~= old_self@.insert(k, v));
    }

    proof fn lemma_view_after_push(self, old_self: ParamValues, k: Seq<char>, v: Seq<char>)
        requires
            old_self.keys_distinct(),
            self.keys_distinct(),
            forall|i: int| !old_self.has_key_at(k, i),
            self.entries@ == old_self.entries@.push(self.entries@.last()),
            self.entries@.last().0@ == k,
            self.entries@.last().1@ == v,
        ensures
            self@ == old_self@.insert(k, v),
    {
        let n = old_self.entries.len() as int;
        assert forall|key: Seq<char>| #[trigger] self@.contains_key(key) == old_self@.insert(
            k,
            v,
        ).contains_key(key) by {
            if key == k {
                assert(self.has_key_at(k, n));
            } else {
                if old_self@.contains_key(key) {
                    let j = choose|j: int| old_self.has_key_at(key, j);
                    assert(self.has_key_at(key, j));
                }
                if self@.contains_key(key) {
                    let j = choose|j: int| self.has_key_at(key, j);
                    assert(old_self.has_key_at(key, j));
                }
            }
        }
        assert forall|key: Seq<char>| #[trigger] self@.contains_key(key) implies self@[key]
            == old_self@.insert(k, v)[key] by {
            let j = choose|j: int| self.has_key_at(key, j);
            if key == k {
                assert(self.has_key_at(k, n));
                if j != n {
                    assert(self.entries[j].0@ != self.entries[n].0@);
                }
            } else {
                assert(j != n);
                assert(old_self.has_key_at(key, j));
                let j2 = choose|j2: int| old_self.has_key_at(key, j2);
                if j2 != j {
                    if j2 < j {
                        assert(old_self.entries[j2].0@ != old_self.entries[j].0@);
                    } else {
                        assert(old_self.entries[j].0@ != old_self.entries[j2].0@);
                    }
                }
            }
        }
        assert(self@ =~= old_self@.insert(k, v));
    }
}


/// What a `RenderError` says.
pub enum RenderErrorModel {
    InvalidIndex,
    MissingRequired(Seq<char>),
}

impl View for RenderError {
    type V = RenderErrorModel;

    open spec fn view(&self) -> RenderErrorModel {
        match self {
            RenderError::InvalidIndex => RenderErrorModel::InvalidIndex,
            RenderError::MissingRequired(n) => RenderErrorModel::MissingRequired(n@),
        }
    }
}

/// `{{inner}}`.
pub open spec fn braces(inner: Seq<char>) -> Seq<char> {
    seq!['{', '{'] + inner + seq!['}', '}']
}

/// The value a parameter takes: the given one, else its default, else empty.
pub open spec fn value_of(p: ParamModel, values: Map<Seq<char>, Seq<char>>) -> Seq<char> {
    if values.contains_key(p.name) {
        values[p.name]
    } else {
        match p.default {
            Some(d) => d,
            None => Seq::empty(),
        }
    }
}

/// `t` with the placeholders of `p` (`{{name}}`, `{{name?}}`, and `{{name?default}}`
/// where `p` has a default) replaced, in that order, by the value of `p`.
pub open spec fn fill_param(t: Seq<char>, p: ParamModel, values: Map<Seq<char>, Seq<char>>) -> Seq<
    char,
> {
    let v = value_of(p, values);
    let t1 = replace_all(t, braces(p.name), v);
    let t2 = replace_all(t1, braces(p.name.push('?')), v);
    match p.default {
        Some(d) => replace_all(t2, braces(p.name.push('?') + d), v),
        None => t2,
    }
}

/// `t` with the placeholders of each parameter of `ps` filled, one parameter after another.
pub open spec fn fill_params(
    t: Seq<char>,
    ps: Seq<ParamModel>,
    values: Map<Seq<char>, Seq<char>>,
) -> Seq<char>
    decreases ps.len(),
{
    if ps.len() == 0 {
        t
    } else {
        fill_params(fill_param(t, ps[0], values), ps.drop_first(), values)
    }
}

/// The name of the first required parameter of `ps` without a value.
pub open spec fn first_missing(ps: Seq<ParamModel>, values: Map<Seq<char>, Seq<char>>) -> Option<
    Seq<char>,
>
    decreases ps.len(),
{
    if ps.len() == 0 {
        None
    } else if ps[0].required && !values.contains_key(ps[0].name) {
        Some(ps[0].name)
    } else {
        first_missing(ps.drop_first(), values)
    }
}

/// The text of skill `idx` of `pack` rendered with `values`.
pub open spec fn render_of(pack: SkillPackModel, idx: int, values: Map<Seq<char>, Seq<char>>) -> Result<
    Seq<char>,
    RenderErrorModel,
> {
    if !(0 <= idx < pack.skills.len()) {
        Err(RenderErrorModel::InvalidIndex)
    } else {
        let sk = pack.skills[idx];
        match first_missing(sk.params, values) {
            Some(n) => Err(RenderErrorModel::MissingRequired(n)),
            None => Ok(fill_params(sk.raw_template, sk.params, values)),
        }
    }
}

/// The characters of `{{name}}`, `{{name?}}` or `{{name?extra}}`.
fn placeholder(name: &String, optional: bool, extra: &Vec<char>) -> (r: Vec<char>)
    ensures
        r@ == braces(
            if optional {
                name@.push('?') + extra@
            } else {
                name@
            },
        ),
{
    let n = chars_of(name.as_str());
    let mut r: Vec<char> = Vec::new();
    r.push('{');
    r.push('{');
    let mut i: usize = 0;
    while i < n.len()
        invariant
            i <= n.len(),
            r@ == seq!['{', '{'] + n@.take(i as int),
        decreases n.len() - i,
    {
        r.push(n[i]);
        i = i + 1;
        assert(r@ =~= seq!['{', '{'] + n@.take(i as int));
    }
    assert(n@.take(n.len() as int) =~= n@);
    if optional {
        r.push('?');
        let mut j: usize = 0;
        while j < extra.len()
            invariant
                j <= extra.len(),
                r@ == seq!['{', '{'] + n@.push('?') + extra@.take(j as int),
            decreases extra.len() - j,
        {
            r.push(extra[j]);
            j = j + 1;
            assert(r@ =~= seq!['{', '{'] + n@.push('?') + extra@.take(j as int));
        }
        assert(extra@.take(extra.len() as int) =~= extra@);
    }
    r.push('}');
    r.push('}');
    assert(r@ =~= braces(
        if optional {
            name@.push('?') + extra@
        } else {
            name@
        },
    ));
    r
}

/// `t` with the placeholders of `p` filled (see `fill_param`).
fn fill_one(t: &Vec<char>, p: &Param, values: &ParamValues) -> (r: Vec<char>)
    ensures
        r@ == fill_param(t@, p@, values@),
{
    let value: Vec<char> = match values.get(p.name.as_str()) {
        Some(v) => chars_of(v.as_str()),
        None => match &p.default {
            Some(d) => chars_of(d.as_str()),
            None => Vec::new(),
        },
    };
    let none: Vec<char> = Vec::new();
    let t1 = replace_chars(t, &placeholder(&p.name, false, &none), &value);
    let t2 = replace_chars(&t1, &placeholder(&p.name, true, &none), &value);
    assert(p.name@.push('?') + none@ =~= p.name@.push('?'));
    match &p.default {
        Some(d) => replace_chars(&t2, &placeholder(&p.name, true, &chars_of(d.as_str())), &value),
        None => t2,
    }
}

impl SkillPack {
    /// Render a skill template with given parameter values.
    pub fn render(&self, skill_idx: usize, values: &ParamValues) -> (r: Result<String, RenderError>)
        ensures
            match r {
                Ok(text) => render_of(self@, skill_idx as int, values@) == Ok::<
                    Seq<char>,
                    RenderErrorModel,
                >(text@),
                Err(e) => render_of(self@, skill_idx as int, values@) == Err::<
                    Seq<char>,
                    RenderErrorModel,
                >(e@),
            },
    {
        if skill_idx >= self.skills.len() {
            return Err(RenderError::InvalidIndex);
        }
        let skill = &self.skills[skill_idx];
        assert(self@.skills[skill_idx as int] == skill@);
        let ghost ps = params_view(skill.params@);
        let mut i: usize = 0;
        assert(ps.skip(0) =~= ps);
        while i < skill.params.len()
            invariant
                i <= skill.params.len(),
                ps == params_view(skill.params@),
                skill_idx < self.skills.len(),
                self@.skills[skill_idx as int] == skill@,
                first_missing(ps, values@) == first_missing(ps.skip(i as int), values@),
            decreases skill.params.len() - i,
        {
            let p = &skill.params[i];
            assert(ps.skip(i as int)[0] == p@);
            assert(ps.skip(i as int).drop_first() =~= ps.skip(i + 1));
            if p.required && !values.contains_key(p.name.as_str()) {
                return Err(RenderError::MissingRequired(p.name.clone()));
            }
            i = i + 1;
        }
        assert(ps.skip(i as int) =~= Seq::<ParamModel>::empty());
        assert(first_missing(ps, values@) is None);
        let mut cur = chars_of(skill.raw_template.as_str());
        let mut j: usize = 0;
        while j < skill.params.len()
            invariant
                j <= skill.params.len(),
                ps == params_view(skill.params@),
                fill_params(skill@.raw_template, ps, values@) == fill_params(
                    cur@,
                    ps.skip(j as int),
                    values@,
                ),
            decreases skill.params.len() - j,
        {
            let p = &skill.params[j];
            assert(ps.skip(j as int)[0] == p@);
            assert(ps.skip(j as int).drop_first() =~= ps.skip(j + 1));
            cur = fill_one(&cur, p, values);
            j = j + 1;
        }
        assert(ps.skip(j as int) =~= Seq::<ParamModel>::empty());
        Ok(string_of_all(&cur))
    }
}


/// No two parameters share a name; a required parameter has a non-empty name and
/// no default.
pub open spec fn params_well_formed(ps: Seq<ParamModel>) -> bool {
    &&& forall|i: int, j: int|
        0 <= i < j < ps.len() ==> (#[trigger] ps[i]).name != (#[trigger] ps[j]).name
    &&& forall|i: int|
        0 <= i < ps.len() && (#[trigger] ps[i]).required ==> ps[i].name.len() > 0
            && ps[i].default is None
}

proof fn lemma_scan_well_formed(
    t: Seq<char>,
    i: int,
    params: Seq<ParamModel>,
    in_brace: bool,
    content: Seq<char>,
)
    requires
        params_well_formed(params),
    ensures
        scan_params(t, i, params, in_brace, content) matches Ok(ps) ==> params_well_formed(ps),
    decreases t.len() - i,
{
    if 0 <= i < t.len() {
        if t[i] == '{' {
            if i + 1 < t.len() && t[i + 1] == '{' {
                lemma_scan_well_formed(t, i + 2, params, true, Seq::empty());
            } else {
                lemma_scan_well_formed(t, i + 1, params, in_brace, content);
            }
        } else if t[i] == '}' {
            if i + 1 < t.len() && t[i + 1] == '}' {
                if let Ok(p) = param_of(content) {
                    let next = add_unique(params, p);
                    if !(exists|k: int| 0 <= k < params.len() && (#[trigger] params[k]).name == p.name) {
                        assert forall|a: int, b: int|
                            0 <= a < b < next.len() implies (#[trigger] next[a]).name != (
                            #[trigger] next[b]).name by {
                            if b == params.len() {
                                assert(next[a] == params[a]);
                            } else {
                                assert(params[a].name != params[b].name);
                            }
                        }
                        assert forall|a: int|
                            0 <= a < next.len() && (#[trigger] next[a]).required implies next[a].name.len()
                            > 0 && next[a].default is None by {
                            if a < params.len() {
                                assert(next[a] == params[a]);
                            }
                        }
                    }
                    lemma_scan_well_formed(t, i + 2, next, false, content);
                }
            } else {
                lemma_scan_well_formed(t, i + 1, params, in_brace, content);
            }
        } else if in_brace {
            lemma_scan_well_formed(t, i + 1, params, in_brace, content.push(t[i]));
        } else {
            lemma_scan_well_formed(t, i + 1, params, in_brace, content);
        }
    }
}

proof fn lemma_skills_well_formed(ls: Seq<Seq<char>>, i: int, acc: Seq<SkillModel>)
    requires
        forall|k: int| 0 <= k < acc.len() ==> params_well_formed(#[trigger] acc[k].params),
    ensures
        skills_from(ls, i, acc) matches Ok(sks) ==> forall|k: int|
            0 <= k < sks.len() ==> params_well_formed(#[trigger] sks[k].params),
    decreases ls.len() - i,
{
    if 0 <= i < ls.len() {
        match skill_line(ls[i]) {
            None => lemma_skills_well_formed(ls, i + 1, acc),
            Some(Err(_)) => {},
            Some(Ok(sk)) => {
                let t = trim(ls[i]);
                let tmpl = trim(split_once(t, ':').unwrap().1);
                assert(params_well_formed(Seq::<ParamModel>::empty()));
                lemma_scan_well_formed(tmpl, 0, Seq::empty(), false, Seq::empty());
                let next = acc.push(sk);
                assert forall|k: int| 0 <= k < next.len() implies params_well_formed(
                    #[trigger] next[k].params,
                ) by {
                    if k < acc.len() {
                        assert(next[k] == acc[k]);
                    }
                }
                lemma_skills_well_formed(ls, i + 1, next);
            },
        }
    }
}

/// In every skill that parsing yields, no two parameters share a name (a placeholder
/// repeated in a template declares its parameter once), and a required parameter has
/// a non-empty name and no default.
pub proof fn parsed_params_well_formed(input: Seq<char>)
    ensures
        pack_of(input) matches Ok(pack) ==> forall|k: int|
            0 <= k < pack.skills.len() ==> params_well_formed(#[trigger] pack.skills[k].params),
{
    let ls = split_lines(input);
    let start = if trim(ls[0]) == "---"@ {
        front_matter(ls, 1, "unnamed"@, "0.1.0"@).2
    } else {
        0int
    };
    lemma_skills_well_formed(ls, start, Seq::empty());
}


impl SkillParseError {
    /// The error's message: `invalid parameter: ` and the detail.
    pub fn message(&self) -> (m: String)
        ensures
            match self {
                SkillParseError::InvalidParam(d) => m@ == "invalid parameter: "@ + d@,
            },
    {
        match self {
            SkillParseError::InvalidParam(d) => {
                let mut m = String::from_str("invalid parameter: ");
                m.append(d.as_str());
                m
            },
        }
    }
}

impl RenderError {
    /// The error's message.
    pub fn message(&self) -> (m: String)
        ensures
            match self {
                RenderError::InvalidIndex => m@ == "invalid skill index"@,
                RenderError::MissingRequired(n) => m@ == "missing required parameter: "@ + n@,
            },
    {
        match self {
            RenderError::InvalidIndex => String::from_str("invalid skill index"),
            RenderError::MissingRequired(n) => {
                let mut m = String::from_str("missing required parameter: ");
                m.append(n.as_str());
                m
            },
        }
    }
}


/// A placeholder is refused exactly when its content is blank, always with the message
/// `empty param name`.
pub proof fn placeholder_error_iff_blank(content: Seq<char>)
    ensures
        (param_of(content) is Err) == (trim(content).len() == 0),
        param_of(content) matches Err(m) ==> m == empty_param_msg(),
{
}

proof fn lemma_scan_error_msg(
    t: Seq<char>,
    i: int,
    params: Seq<ParamModel>,
    in_brace: bool,
    content: Seq<char>,
)
    ensures
        scan_params(t, i, params, in_brace, content) matches Err(e) ==> e == empty_param_msg(),
    decreases t.len() - i,
{
    if 0 <= i < t.len() {
        if t[i] == '{' {
            if i + 1 < t.len() && t[i + 1] == '{' {
                lemma_scan_error_msg(t, i + 2, params, true, Seq::empty());
            } else {
                lemma_scan_error_msg(t, i + 1, params, in_brace, content);
            }
        } else if t[i] == '}' {
            if i + 1 < t.len() && t[i + 1] == '}' {
                if let Ok(p) = param_of(content) {
                    lemma_scan_error_msg(t, i + 2, add_unique(params, p), false, content);
                }
            } else {
                lemma_scan_error_msg(t, i + 1, params, in_brace, content);
            }
        } else if in_brace {
            lemma_scan_error_msg(t, i + 1, params, in_brace, content.push(t[i]));
        } else {
            lemma_scan_error_msg(t, i + 1, params, in_brace, content);
        }
    }
}

/// The parameters a template declares have distinct names; a required one has a
/// non-empty name and no default. A template is refused only with the message
/// `empty param name`.
pub proof fn template_params_well_formed(t: Seq<char>)
    ensures
        params_of(t) matches Ok(ps) ==> params_well_formed(ps),
        params_of(t) matches Err(e) ==> e == empty_param_msg(),
{
    assert(params_well_formed(Seq::<ParamModel>::empty()));
    lemma_scan_well_formed(t, 0, Seq::empty(), false, Seq::empty());
    lemma_scan_error_msg(t, 0, Seq::empty(), false, Seq::empty());
}

/// The index of the first skill line: after the front matter, or the first line when
/// the input has none.
pub open spec fn skills_start(ls: Seq<Seq<char>>) -> int {
    if trim(ls[0]) == "---"@ {
        front_matter(ls, 1, "unnamed"@, "0.1.0"@).2
    } else {
        0
    }
}

/// The lines from `i` on that declare a skill: not blank, not a `#` comment, and
/// with a `:`.
pub open spec fn declaring_lines(ls: Seq<Seq<char>>, i: int) -> Seq<Seq<char>>
    decreases ls.len() - i,
{
    if !(0 <= i < ls.len()) {
        Seq::empty()
    } else if skill_line(ls[i]) is Some {
        seq![ls[i]] + declaring_lines(ls, i + 1)
    } else {
        declaring_lines(ls, i + 1)
    }
}

proof fn lemma_skills_from(ls: Seq<Seq<char>>, i: int, acc: Seq<SkillModel>)
    requires
        0 <= i,
    ensures
        (skills_from(ls, i, acc) is Err) == (exists|k: int|
            i <= k < ls.len() && #[trigger] skill_line(ls[k]) matches Some(Err(_))),
        skills_from(ls, i, acc) matches Err(e) ==> e == empty_param_msg(),
        skills_from(ls, i, acc) matches Ok(r) ==> {
            let d = declaring_lines(ls, i);
            &&& r.len() == acc.len() + d.len()
            &&& r.take(acc.len() as int) == acc
            &&& forall|k: int|
                0 <= k < d.len() ==> #[trigger] skill_line(d[k]) == Some(
                    Ok::<SkillModel, Seq<char>>(r[acc.len() + k]),
                )
        },
    decreases ls.len() - i,
{
    if i < ls.len() {
        let line = ls[i];
        match skill_line(line) {
            None => {
                lemma_skills_from(ls, i + 1, acc);
                if exists|k: int| i <= k < ls.len() && #[trigger] skill_line(ls[k]) matches Some(
                    Err(_),
                ) {
                    let k = choose|k: int|
                        i <= k < ls.len() && #[trigger] skill_line(ls[k]) matches Some(Err(_));
                    assert(k != i);
                }
            },
            Some(Err(e)) => {
                let t = trim(line);
                let tmpl = trim(split_once(t, ':').unwrap().1);
                template_params_well_formed(tmpl);
                assert(i <= i < ls.len() && skill_line(ls[i]) matches Some(Err(_)));
            },
            Some(Ok(sk)) => {
                let next = acc.push(sk);
                lemma_skills_from(ls, i + 1, next);
                if exists|k: int| i <= k < ls.len() && #[trigger] skill_line(ls[k]) matches Some(
                    Err(_),
                ) {
                    let k = choose|k: int|
                        i <= k < ls.len() && #[trigger] skill_line(ls[k]) matches Some(Err(_));
                    assert(k != i);
                }
                if let Ok(r) = skills_from(ls, i, acc) {
                    let d = declaring_lines(ls, i);
                    let d1 = declaring_lines(ls, i + 1);
                    assert(d == seq![line] + d1);
                    assert(r.take(next.len() as int) == next);
                    assert(r.take(acc.len() as int) =~= next.take(acc.len() as int));
                    assert(next.take(acc.len() as int) =~= acc);
                    assert(r[acc.len() as int] == next[acc.len() as int]);
                    assert forall|k: int| 0 <= k < d.len() implies #[trigger] skill_line(d[k])
                        == Some(Ok::<SkillModel, Seq<char>>(r[acc.len() + k])) by {
                        if k > 0 {
                            assert(d[k] == d1[k - 1]);
                            assert(skill_line(d1[k - 1]) == Some(
                                Ok::<SkillModel, Seq<char>>(r[next.len() + (k - 1)]),
                            ));
                        }
                    }
                }
            },
        }
    }
}

proof fn lemma_pack_of_start(input: Seq<char>)
    ensures
        ({
            let ls = split_lines(input);
            &&& skills_start(ls) >= 0
            &&& pack_of(input) is Err == skills_from(ls, skills_start(ls), Seq::empty()) is Err
            &&& pack_of(input) matches Err(e) ==> skills_from(
                ls,
                skills_start(ls),
                Seq::empty(),
            ) == Err::<Seq<SkillModel>, Seq<char>>(e)
            &&& pack_of(input) matches Ok(p) ==> skills_from(ls, skills_start(ls), Seq::empty())
                == Ok::<Seq<SkillModel>, Seq<char>>(p.skills)
        }),
{
    let ls = split_lines(input);
    if trim(ls[0]) == "---"@ {
        lemma_front_matter_end(ls, 1, "unnamed"@, "0.1.0"@);
    }
}

proof fn lemma_front_matter_end(ls: Seq<Seq<char>>, i: int, name: Seq<char>, version: Seq<char>)
    requires
        0 <= i,
    ensures
        front_matter(ls, i, name, version).2 >= 0,
    decreases ls.len() - i,
{
    if 0 <= i < ls.len() {
        let t = trim(ls[i]);
        if t != "---"@ {
            match split_once(t, ':') {
                Some((k, val)) => {
                    lemma_front_matter_end(ls, i + 1, trim_quotes(trim(val)), version);
                    lemma_front_matter_end(ls, i + 1, name, trim_quotes(trim(val)));
                    lemma_front_matter_end(ls, i + 1, name, version);
                },
                None => lemma_front_matter_end(ls, i + 1, name, version),
            }
        }
    }
}

/// A parsed pack has one skill per declaring line after the front matter, in order,
/// and each skill is what its line declares.
pub proof fn parse_skills_follow_lines(input: Seq<char>)
    ensures
        pack_of(input) matches Ok(p) ==> {
            let ls = split_lines(input);
            let d = declaring_lines(ls, skills_start(ls));
            &&& p.skills.len() == d.len()
            &&& forall|k: int|
                0 <= k < d.len() ==> #[trigger] skill_line(d[k]) == Some(
                    Ok::<SkillModel, Seq<char>>(p.skills[k]),
                )
        },
{
    let ls = split_lines(input);
    lemma_pack_of_start(input);
    lemma_skills_from(ls, skills_start(ls), Seq::empty());
    if let Ok(p) = pack_of(input) {
        let d = declaring_lines(ls, skills_start(ls));
        assert forall|k: int| 0 <= k < d.len() implies #[trigger] skill_line(d[k]) == Some(
            Ok::<SkillModel, Seq<char>>(p.skills[k]),
        ) by {
            assert(Seq::<SkillModel>::empty().len() + k == k);
        }
    }
}

/// Parsing fails exactly when some skill line after the front matter declares a
/// template with a blank placeholder, and then always with `empty param name`.
pub proof fn parse_fails_iff_blank_placeholder(input: Seq<char>)
    ensures
        ({
            let ls = split_lines(input);
            (pack_of(input) is Err) == (exists|k: int|
                skills_start(ls) <= k < ls.len() && #[trigger] skill_line(ls[k]) matches Some(
                    Err(_),
                ))
        }),
        pack_of(input) matches Err(m) ==> m == empty_param_msg(),
{
    let ls = split_lines(input);
    lemma_pack_of_start(input);
    lemma_skills_from(ls, skills_start(ls), Seq::empty());
}


/// The value a front-matter line gives to `key`: the trimmed, quote-trimmed text after
/// the first `:`, when the trimmed text before it is `key`.
pub open spec fn key_value(line: Seq<char>, key: Seq<char>) -> Option<Seq<char>> {
    match split_once(trim(line), ':') {
        Some((k, v)) => if trim(k) == key {
            Some(trim_quotes(trim(v)))
        } else {
            None
        },
        None => None,
    }
}

/// The first line at or after `i` whose trimmed text is `---`, or the line count.
pub open spec fn front_matter_close(ls: Seq<Seq<char>>, i: int) -> int
    decreases ls.len() - i,
{
    if !(0 <= i < ls.len()) {
        ls.len() as int
    } else if trim(ls[i]) == "---"@ {
        i
    } else {
        front_matter_close(ls, i + 1)
    }
}

/// The value given to `key` by the last line of `ls[i..j]` that sets it, else `d`.
pub open spec fn last_set(ls: Seq<Seq<char>>, i: int, j: int, key: Seq<char>, d: Seq<char>) -> Seq<
    char,
>
    decreases j - i,
{
    if j <= i {
        d
    } else {
        match key_value(ls[j - 1], key) {
            Some(v) => v,
            None => last_set(ls, i, j - 1, key, d),
        }
    }
}

proof fn lemma_last_set_step(ls: Seq<Seq<char>>, i: int, j: int, key: Seq<char>, d: Seq<char>)
    requires
        i < j,
    ensures
        last_set(ls, i, j, key, d) == last_set(
            ls,
            i + 1,
            j,
            key,
            match key_value(ls[i], key) {
                Some(v) => v,
                None => d,
            },
        ),
    decreases j - i,
{
    let upd = match key_value(ls[i], key) {
        Some(v) => v,
        None => d,
    };
    if j > i + 1 {
        lemma_last_set_step(ls, i, j - 1, key, d);
    } else {
        assert(last_set(ls, i, i, key, d) == d);
        assert(last_set(ls, i + 1, i + 1, key, upd) == upd);
    }
}

/// In front matter read from line `i`, `name` and `version` each take the value of the
/// last line that sets them before the closing `---` (or the end of the input), else
/// the values given; other keys are ignored; the skills start after the closing line.
pub proof fn front_matter_last_key_wins(
    ls: Seq<Seq<char>>,
    i: int,
    name: Seq<char>,
    version: Seq<char>,
)
    requires
        0 <= i,
    ensures
        ({
            let c = front_matter_close(ls, i);
            front_matter(ls, i, name, version) == (
                last_set(ls, i, c, "name"@, name),
                last_set(ls, i, c, "version"@, version),
                if c < ls.len() {
                    c + 1
                } else {
                    ls.len() as int
                },
            )
        }),
    decreases ls.len() - i,
{
    if i < ls.len() {
        let t = trim(ls[i]);
        if t != "---"@ {
            let c = front_matter_close(ls, i);
            let n2 = match key_value(ls[i], "name"@) {
                Some(v) => v,
                None => name,
            };
            let v2 = match key_value(ls[i], "version"@) {
                Some(v) => v,
                None => version,
            };
            front_matter_last_key_wins(ls, i + 1, n2, v2);
            assert(c == front_matter_close(ls, i + 1));
            lemma_close_at_least(ls, i + 1);
            lemma_last_set_step(ls, i, c, "name"@, name);
            lemma_last_set_step(ls, i, c, "version"@, version);
            match split_once(t, ':') {
                Some((k, val)) => {
                    if trim(k) == "name"@ {
                        assert("name"@ != "version"@) by {
                            reveal_strlit("name");
                            reveal_strlit("version");
                            assert("name"@.len() != "version"@.len());
                        }
                    }
                },
                None => {},
            }
            assert(front_matter(ls, i, name, version) == front_matter(ls, i + 1, n2, v2));
        }
    }
}

proof fn lemma_close_at_least(ls: Seq<Seq<char>>, i: int)
    requires
        0 <= i <= ls.len(),
    ensures
        i <= front_matter_close(ls, i) <= ls.len(),
    decreases ls.len() - i,
{
    if i < ls.len() && trim(ls[i]) != "---"@ {
        lemma_close_at_least(ls, i + 1);
    }
}


/// The parameters declared at each closing `}}` of the template from position `i`, in
/// order, up to the first refused placeholder (see `scan_params` for the states).
pub open spec fn declared_params(t: Seq<char>, i: int, in_brace: bool, content: Seq<char>) -> Seq<
    ParamModel,
>
    decreases t.len() - i,
{
    if !(0 <= i < t.len()) {
        Seq::empty()
    } else if t[i] == '{' {
        if i + 1 < t.len() && t[i + 1] == '{' {
            declared_params(t, i + 2, true, Seq::empty())
        } else {
            declared_params(t, i + 1, in_brace, content)
        }
    } else if t[i] == '}' {
        if i + 1 < t.len() && t[i + 1] == '}' {
            match param_of(content) {
                Err(_) => Seq::empty(),
                Ok(p) => seq![p] + declared_params(t, i + 2, false, content),
            }
        } else {
            declared_params(t, i + 1, in_brace, content)
        }
    } else if in_brace {
        declared_params(t, i + 1, in_brace, content.push(t[i]))
    } else {
        declared_params(t, i + 1, in_brace, content)
    }
}

/// The error of the first refused placeholder of the template from position `i`.
pub open spec fn declaration_error(t: Seq<char>, i: int, in_brace: bool, content: Seq<char>) -> Option<
    Seq<char>,
>
    decreases t.len() - i,
{
    if !(0 <= i < t.len()) {
        None
    } else if t[i] == '{' {
        if i + 1 < t.len() && t[i + 1] == '{' {
            declaration_error(t, i + 2, true, Seq::empty())
        } else {
            declaration_error(t, i + 1, in_brace, content)
        }
    } else if t[i] == '}' {
        if i + 1 < t.len() && t[i + 1] == '}' {
            match param_of(content) {
                Err(e) => Some(e),
                Ok(p) => declaration_error(t, i + 2, false, content),
            }
        } else {
            declaration_error(t, i + 1, in_brace, content)
        }
    } else if in_brace {
        declaration_error(t, i + 1, in_brace, content.push(t[i]))
    } else {
        declaration_error(t, i + 1, in_brace, content)
    }
}

/// `ps` extended, in order, by each parameter of `ds` whose name it does not hold yet.
pub open spec fn add_all(ps: Seq<ParamModel>, ds: Seq<ParamModel>) -> Seq<ParamModel>
    decreases ds.len(),
{
    if ds.len() == 0 {
        ps
    } else {
        add_all(add_unique(ps, ds[0]), ds.drop_first())
    }
}

/// Whether a parameter of `ps` is named `n`.
pub open spec fn has_name(ps: Seq<ParamModel>, n: Seq<char>) -> bool {
    exists|k: int| 0 <= k < ps.len() && (#[trigger] ps[k]).name == n
}

/// The first form of each name in `ds`, in order of first appearance.
pub open spec fn keep_first(ds: Seq<ParamModel>) -> Seq<ParamModel>
    decreases ds.len(),
{
    if ds.len() == 0 {
        Seq::empty()
    } else if has_name(ds.drop_last(), ds.last().name) {
        keep_first(ds.drop_last())
    } else {
        keep_first(ds.drop_last()).push(ds.last())
    }
}

proof fn lemma_scan_is_add_all(
    t: Seq<char>,
    i: int,
    params: Seq<ParamModel>,
    in_brace: bool,
    content: Seq<char>,
)
    ensures
        scan_params(t, i, params, in_brace, content) == (match declaration_error(
            t,
            i,
            in_brace,
            content,
        ) {
            Some(e) => Err(e),
            None => Ok(add_all(params, declared_params(t, i, in_brace, content))),
        }),
    decreases t.len() - i,
{
    if 0 <= i < t.len() {
        if t[i] == '{' {
            if i + 1 < t.len() && t[i + 1] == '{' {
                lemma_scan_is_add_all(t, i + 2, params, true, Seq::empty());
            } else {
                lemma_scan_is_add_all(t, i + 1, params, in_brace, content);
            }
        } else if t[i] == '}' {
            if i + 1 < t.len() && t[i + 1] == '}' {
                if let Ok(p) = param_of(content) {
                    lemma_scan_is_add_all(t, i + 2, add_unique(params, p), false, content);
                    let rest = declared_params(t, i + 2, false, content);
                    assert((seq![p] + rest).drop_first() =~= rest);
                }
            } else {
                lemma_scan_is_add_all(t, i + 1, params, in_brace, content);
            }
        } else if in_brace {
            lemma_scan_is_add_all(t, i + 1, params, in_brace, content.push(t[i]));
        } else {
            lemma_scan_is_add_all(t, i + 1, params, in_brace, content);
        }
    }
}

proof fn lemma_add_all_snoc(ps: Seq<ParamModel>, ds: Seq<ParamModel>, x: ParamModel)
    ensures
        add_all(ps, ds.push(x)) == add_unique(add_all(ps, ds), x),
    decreases ds.len(),
{
    if ds.len() == 0 {
        assert(ds.push(x).drop_first() =~= Seq::<ParamModel>::empty());
        assert(ds.push(x)[0] == x);
        assert(add_all(add_unique(ps, x), Seq::<ParamModel>::empty()) == add_unique(ps, x));
        assert(add_all(ps, ds) == ps);
    } else {
        assert(ds.push(x)[0] == ds[0]);
        assert(ds.push(x).drop_first() =~= ds.drop_first().push(x));
        lemma_add_all_snoc(add_unique(ps, ds[0]), ds.drop_first(), x);
    }
}

proof fn lemma_add_unique_names(ps: Seq<ParamModel>, x: ParamModel, n: Seq<char>)
    ensures
        has_name(add_unique(ps, x), n) == (has_name(ps, n) || x.name == n),
{
    if !(exists|k: int| 0 <= k < ps.len() && (#[trigger] ps[k]).name == x.name) {
        let r = ps.push(x);
        assert(r[ps.len() as int] == x);
        if has_name(r, n) {
            let k = choose|k: int| 0 <= k < r.len() && (#[trigger] r[k]).name == n;
            if k < ps.len() {
                assert(ps[k] == r[k]);
            }
        }
        if has_name(ps, n) {
            let k = choose|k: int| 0 <= k < ps.len() && (#[trigger] ps[k]).name == n;
            assert(r[k] == ps[k]);
        }
    } else {
        if x.name == n {
            let k = choose|k: int| 0 <= k < ps.len() && (#[trigger] ps[k]).name == x.name;
            assert(has_name(ps, n));
        }
    }
}

proof fn lemma_add_all_empty_is_keep_first(ds: Seq<ParamModel>)
    ensures
        add_all(Seq::empty(), ds) == keep_first(ds),
        forall|n: Seq<char>| has_name(add_all(Seq::empty(), ds), n) == has_name(ds, n),
    decreases ds.len(),
{
    if ds.len() > 0 {
        let init = ds.drop_last();
        let x = ds.last();
        lemma_add_all_empty_is_keep_first(init);
        assert(init.push(x) =~= ds);
        lemma_add_all_snoc(Seq::empty(), init, x);
        let r = add_all(Seq::empty(), init);
        assert forall|n: Seq<char>| has_name(add_all(Seq::empty(), ds), n) == has_name(ds, n) by {
            lemma_add_unique_names(r, x, n);
            if has_name(ds, n) {
                let k = choose|k: int| 0 <= k < ds.len() && (#[trigger] ds[k]).name == n;
                if k < init.len() {
                    assert(init[k] == ds[k]);
                }
            }
            if has_name(init, n) {
                let k = choose|k: int| 0 <= k < init.len() && (#[trigger] init[k]).name == n;
                assert(ds[k] == init[k]);
            }
        }
        if has_name(init, x.name) {
            assert(has_name(r, x.name));
            let k = choose|k: int| 0 <= k < r.len() && (#[trigger] r[k]).name == x.name;
        } else {
            assert(!has_name(r, x.name));
        }
    } else {
        assert forall|n: Seq<char>| has_name(add_all(Seq::empty(), ds), n) == has_name(ds, n) by {}
    }
}

/// The parameters of a template are the first form of each placeholder name, in order
/// of first appearance, where each placeholder declares `param_of` of its content
/// (`declared_params`); a template with a refused placeholder is refused with that
/// placeholder's error.
pub proof fn template_params_keep_first(t: Seq<char>)
    ensures
        params_of(t) == (match declaration_error(t, 0, false, Seq::empty()) {
            Some(e) => Err(e),
            None => Ok(keep_first(declared_params(t, 0, false, Seq::empty()))),
        }),
{
    lemma_scan_is_add_all(t, 0, Seq::empty(), false, Seq::empty());
    lemma_add_all_empty_is_keep_first(declared_params(t, 0, false, Seq::empty()));
}


/// Whether `s` has no `?`.
pub open spec fn no_question_mark(s: Seq<char>) -> bool {
    forall|j: int| 0 <= j < s.len() ==> s[j] != '?'
}

/// A placeholder's parameter is cut at the FIRST `?` of its trimmed content: the name
/// is the trimmed text before that `?` and never holds a `?`; the default is the
/// trimmed text after it (which may itself hold `?`), absent when blank. Content
/// without `?` declares a required parameter named by the whole trimmed content.
pub proof fn placeholder_splits_at_first_question_mark(content: Seq<char>)
    ensures
        param_of(content) matches Ok(p) ==> no_question_mark(p.name),
        forall|i: int|
            #![trigger trim(content)[i]]
            0 <= i < trim(content).len() && trim(content)[i] == '?' && no_question_mark(
                trim(content).take(i),
            ) ==> param_of(content) == Ok::<ParamModel, Seq<char>>(
                ParamModel {
                    name: trim(trim(content).take(i)),
                    required: false,
                    default: if trim(trim(content).skip(i + 1)).len() == 0 {
                        None
                    } else {
                        Some(trim(trim(content).skip(i + 1)))
                    },
                },
            ),
        trim(content).len() > 0 && no_question_mark(trim(content)) ==> param_of(content) == Ok::<
            ParamModel,
            Seq<char>,
        >(ParamModel { name: trim(content), required: true, default: None }),
{
    let c = trim(content);
    find_from_is_first(c, '?', 0);
    match find_char(c, '?') {
        Some(k) => {
            assert forall|i: int|
                #![trigger c[i]]
                0 <= i < c.len() && c[i] == '?' && no_question_mark(c.take(i)) implies i == k by {
                if i < k {
                } else if i > k {
                    assert(c.take(i)[k] == '?');
                }
            }
            let pre = c.take(k);
            assert(no_question_mark(pre));
            trim_is_part_of(pre, false);
            let (a, b) = choose|a: int, b: int|
                0 <= a <= b <= pre.len() && trim_by(pre, false) == pre.subrange(a, b);
            assert(no_question_mark(trim(pre))) by {
                assert forall|j: int| 0 <= j < trim(pre).len() implies trim(pre)[j] != '?' by {
                    assert(trim(pre)[j] == pre[a + j]);
                }
            }
        },
        None => {
            if c.len() > 0 {
                assert(no_question_mark(c));
            }
        },
    }
}


/// Rendering skill `idx` renders that skill and no other: it is what rendering the
/// same skill alone (as skill 0 of a one-skill pack) gives, whatever the pack's name,
/// version and other skills; skills added after it change nothing. A refusal for the
/// index comes exactly when `idx` is out of range; otherwise the result is the skill's
/// own template filled with its own parameters, or its first missing required one.
pub proof fn render_uses_the_indexed_skill(
    pack: SkillPackModel,
    idx: int,
    values: Map<Seq<char>, Seq<char>>,
    extra: Seq<SkillModel>,
)
    ensures
        (render_of(pack, idx, values) == Err::<Seq<char>, RenderErrorModel>(
            RenderErrorModel::InvalidIndex,
        )) == !(0 <= idx < pack.skills.len()),
        0 <= idx < pack.skills.len() ==> {
            let sk = pack.skills[idx];
            &&& render_of(pack, idx, values) == render_of(
                SkillPackModel { name: Seq::empty(), version: Seq::empty(), skills: seq![sk] },
                0,
                values,
            )
            &&& render_of(
                SkillPackModel {
                    name: pack.name,
                    version: pack.version,
                    skills: pack.skills + extra,
                },
                idx,
                values,
            ) == render_of(pack, idx, values)
            &&& render_of(pack, idx, values) matches Ok(text) ==> text == fill_params(
                sk.raw_template,
                sk.params,
                values,
            )
            &&& render_of(pack, idx, values) matches Err(RenderErrorModel::MissingRequired(n))
                ==> first_missing(sk.params, values) == Some(n)
        },
{
    if 0 <= idx < pack.skills.len() {
        assert((pack.skills + extra)[idx] == pack.skills[idx]);
        assert(seq![pack.skills[idx]][0] == pack.skills[idx]);
    }
}


/// Whether `s` has no `{`.
pub open spec fn no_open_brace(s: Seq<char>) -> bool {
    forall|j: int| 0 <= j < s.len() ==> s[j] != '{'
}

proof fn lemma_replace_without_brace(s: Seq<char>, inner: Seq<char>, rep: Seq<char>)
    requires
        no_open_brace(s),
    ensures
        replace_all(s, braces(inner), rep) == s,
    decreases s.len(),
{
    let pat = braces(inner);
    if s.len() >= pat.len() {
        assert(pat[0] == '{');
        assert(s.take(pat.len() as int)[0] != pat[0]);
        lemma_replace_without_brace(s.drop_first(), inner, rep);
        assert(seq![s[0]] + s.drop_first() =~= s);
    }
}

proof fn lemma_fill_without_brace(t: Seq<char>, ps: Seq<ParamModel>, values: Map<Seq<char>, Seq<char>>)
    requires
        no_open_brace(t),
    ensures
        fill_params(t, ps, values) == t,
    decreases ps.len(),
{
    if ps.len() > 0 {
        let p = ps[0];
        let v = value_of(p, values);
        lemma_replace_without_brace(t, p.name, v);
        lemma_replace_without_brace(t, p.name.push('?'), v);
        if let Some(d) = p.default {
            lemma_replace_without_brace(t, p.name.push('?') + d, v);
        }
        lemma_fill_without_brace(t, ps.drop_first(), values);
    }
}

/// A template without `{` has nothing to fill: once every required parameter has a
/// value, rendering it gives the template unchanged.
pub proof fn render_leaves_plain_text(
    pack: SkillPackModel,
    idx: int,
    values: Map<Seq<char>, Seq<char>>,
)
    requires
        0 <= idx < pack.skills.len(),
        no_open_brace(pack.skills[idx].raw_template),
        first_missing(pack.skills[idx].params, values) is None,
    ensures
        render_of(pack, idx, values) == Ok::<Seq<char>, RenderErrorModel>(
            pack.skills[idx].raw_template,
        ),
{
    lemma_fill_without_brace(pack.skills[idx].raw_template, pack.skills[idx].params, values);
}


proof fn lemma_replace_whole(pat: Seq<char>, rep: Seq<char>)
    requires
        pat.len() > 0,
    ensures
        replace_all(pat, pat, rep) == rep,
{
    assert(pat.take(pat.len() as int) =~= pat);
    assert(pat.skip(pat.len() as int) =~= Seq::<char>::empty());
    assert(replace_all(Seq::<char>::empty(), pat, rep) == Seq::<char>::empty());
    assert(rep + Seq::<char>::empty() =~= rep);
}

/// A template that is one placeholder `{{name}}` of a required parameter renders to
/// the value given for it (a value without `{`).
pub proof fn render_fills_the_placeholder(
    name: Seq<char>,
    values: Map<Seq<char>, Seq<char>>,
)
    requires
        values.contains_key(name),
        no_open_brace(values[name]),
    ensures
        render_of(
            SkillPackModel {
                name: Seq::empty(),
                version: Seq::empty(),
                skills: seq![
                    SkillModel {
                        intent: Seq::empty(),
                        params: seq![ParamModel { name, required: true, default: None }],
                        raw_template: braces(name),
                    },
                ],
            },
            0,
            values,
        ) == Ok::<Seq<char>, RenderErrorModel>(values[name]),
{
    let p = ParamModel { name, required: true, default: None };
    let ps = seq![p];
    let v = values[name];
    lemma_replace_whole(braces(name), v);
    lemma_replace_without_brace(v, name.push('?'), v);
    assert(ps.drop_first() =~= Seq::<ParamModel>::empty());
    assert(first_missing(ps.drop_first(), values) is None);
    assert(fill_params(v, ps.drop_first(), values) == v);
}

} // verus!
