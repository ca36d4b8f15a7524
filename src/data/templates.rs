//! The registry of known templates: where they live and their names.
use vstd::prelude::*;
use crate::chars::{eq_lit, chars_of, push_all, string_of};
use crate::file::parser::{pairs_view, tokenize};
use crate::file::tokens::{objs_view, plain_of, toks_view, content_text, ObjV, TokV};
use crate::file::{Object, Token};

verus! {

/// Unix path joining: an absolute `name` replaces `base`; otherwise a `/`
/// goes between them unless `base` is empty or already ends with one.
pub open spec fn joined_path(base: Seq<char>, name: Seq<char>) -> Seq<char> {
    if name.len() > 0 && name[0] == '/' {
        name
    } else if base.len() == 0 || base.last() == '/' {
        base + name
    } else {
        base + seq!['/'] + name
    }
}

/// `name` under the directory `base`.
pub fn join_path(base: &str, name: &str) -> (r: String)
    ensures
        r@ == joined_path(base@, name@),
{
    let b = chars_of(base);
    let n = chars_of(name);
    if n.len() > 0 && n[0] == '/' {
        return string_of(&n);
    }
    let mut out = b.clone();
    assert(out@ == b@);
    if b.len() > 0 && b[b.len() - 1] != '/' {
        out.push('/');
    }
    push_all(&mut out, &n);
    string_of(&out)
}

/// Whether `names` holds `n`, and where.
pub(crate) fn find_name(names: &Vec<String>, n: &str) -> (r: Option<usize>)
    ensures
        r matches Some(i) ==> i < names@.len() && names@[i as int]@ == n@,
        r is None ==> forall|j: int| 0 <= j < names@.len() ==> names@[j]@ != n@,
{
    let mut i: usize = 0;
    while i < names.len()
        invariant
            0 <= i <= names@.len(),
            forall|j: int| 0 <= j < i ==> names@[j]@ != n@,
        decreases names.len() - i,
    {
        if eq_lit(names[i].as_str(), n) {
            return Some(i);
        }
        i = i + 1;
    }
    None
}

/// What a template registry holds.
pub struct TemplatesV {
    pub location: Seq<char>,
    pub names: Seq<Seq<char>>,
}

/// The templates folder and the names of the templates found in it.
pub struct Templates {
    location: String,
    map: Vec<String>,
}

impl View for Templates {
    type V = TemplatesV;

    closed spec fn view(&self) -> TemplatesV {
        TemplatesV { location: self.location@, names: self.map@.map_values(|s: String| s@) }
    }
}

pub open spec fn set_insert(names: Seq<Seq<char>>, n: Seq<char>) -> Seq<Seq<char>> {
    if names.contains(n) {
        names
    } else {
        names.push(n)
    }
}

pub open spec fn is_location_key(k: ObjV) -> bool {
    k == ObjV::Abs("location"@)
}

/// The registry read so far: the location if one was given, and the names.
pub open spec fn templates_run(toks: Seq<(TokV, nat)>) -> Option<(Option<Seq<char>>, Seq<Seq<char>>)>
    decreases toks.len(),
{
    if toks.len() == 0 {
        Some((None, Seq::empty()))
    } else {
        match templates_run(toks.drop_last()) {
            None => None,
            Some((loc, names)) => match toks.last().0 {
                TokV::Declare(v) => match plain_of(v) {
                    Some(n) => Some((loc, set_insert(names, n))),
                    None => None,
                },
                TokV::Assign(k, v) => if is_location_key(k) {
                    match plain_of(v) {
                        Some(l) => Some((Some(l), names)),
                        None => None,
                    }
                } else {
                    None
                },
                _ => None,
            },
        }
    }
}

/// The registry a text describes: a `location = ...` line and one line per
/// template name, with no variables.
pub open spec fn templates_of(content: Seq<char>) -> Option<TemplatesV> {
    match templates_run(tokenize(content)) {
        Some((Some(l), names)) => Some(TemplatesV { location: l, names }),
        _ => None,
    }
}

pub open spec fn location_token(l: Seq<char>) -> TokV {
    TokV::Assign(ObjV::Abs("location"@), seq![ObjV::Str(l)])
}

/// How a registry is written: its location, then each name on a line.
pub open spec fn templates_tokens(v: TemplatesV) -> Seq<TokV> {
    seq![location_token(v.location)] + v.names.map_values(
        |n: Seq<char>| TokV::Declare(seq![ObjV::Str(n)]),
    )
}

pub(crate) fn location_tok(l: &String) -> (r: Token)
    ensures
        r@ == location_token(l@),
{
    let v = vec![Object::String(l.clone())];
    assert(objs_view(v@) =~= seq![ObjV::Str(l@)]);
    Token::Assign(Object::Absolute("location".to_owned()), v)
}

/// Names that are pairwise different.
pub open spec fn distinct_names(ns: Seq<Seq<char>>) -> bool {
    forall|i: int, j: int| 0 <= i < j < ns.len() ==> ns[i] != ns[j]
}

/// The names in order, each kept at its first occurrence.
pub open spec fn dedup_names(ns: Seq<Seq<char>>) -> Seq<Seq<char>>
    decreases ns.len(),
{
    if ns.len() == 0 {
        Seq::empty()
    } else {
        set_insert(dedup_names(ns.drop_last()), ns.last())
    }
}

pub open spec fn names_view(v: Seq<String>) -> Seq<Seq<char>> {
    v.map_values(|s: String| s@)
}

/// Adds `n` unless it is there already.
pub(crate) fn add_name(map: &mut Vec<String>, n: String)
    requires
        distinct_names(names_view(old(map)@)),
    ensures
        names_view(final(map)@) == set_insert(names_view(old(map)@), n@),
        distinct_names(names_view(final(map)@)),
{
    let ghost m0 = map@;
    let ghost mv = names_view(m0);
    match find_name(map, n.as_str()) {
        None => {
            assert(!mv.contains(n@)) by {
                if mv.contains(n@) {
                    let j = choose|j: int| 0 <= j < mv.len() && #[trigger] mv[j] == n@;
                    assert(m0[j]@ == n@);
                }
            }
            map.push(n);
            assert(names_view(map@) =~= mv.push(n@));
        },
        Some(j) => {
            assert(mv[j as int] == n@);
        },
    }
}

impl Templates {
    pub fn new(location: String) -> (r: Templates)
        ensures
            r@ == (TemplatesV { location: location@, names: Seq::empty() }),
            distinct_names(r@.names),
    {
        let r = Templates { location, map: Vec::new() };
        assert(r@.names =~= Seq::<Seq<char>>::empty());
        r
    }

    /// Reads a registry; fails on any other line, on a variable, or when no
    /// location is given.
    pub fn from_content(content: &str) -> (r: Result<Templates, ()>)
        ensures
            match templates_of(content@) {
                Some(v) => r matches Ok(t) && t@ == v,
                None => r is Err,
            },
            r matches Ok(t) ==> distinct_names(t@.names),
    {
        let tokens = Token::from_content(content);
        let ghost toks = pairs_view(tokens@);
        let mut map: Vec<String> = Vec::new();
        let mut location: Option<String> = None;
        let mut k: usize = 0;
        assert(toks.subrange(0, 0) =~= Seq::<(TokV, nat)>::empty());
        assert(names_view(map@) =~= Seq::<Seq<char>>::empty());
        while k < tokens.len()
            invariant
                0 <= k <= tokens@.len(),
                toks == pairs_view(tokens@),
                toks == tokenize(content@),
                templates_run(toks.subrange(0, k as int)) == Some(
                    (
                        match location {
                            Some(l) => Some(l@),
                            None => None,
                        },
                        map@.map_values(|s: String| s@),
                    ),
                ),
                distinct_names(names_view(map@)),
            decreases tokens.len() - k,
        {
            assert(toks.subrange(0, k + 1).drop_last() =~= toks.subrange(0, k as int));
            assert(toks[k as int].0 == tokens@[k as int].0@);
            match &tokens[k].0 {
                Token::Declare(v) => {
                    match Object::group_plain(v) {
                        Some(n) => {
                            add_name(&mut map, n);
                        },
                        None => {
                            proof {
                                lemma_templates_none(toks, k as int + 1);
                            }
                            return Err(());
                        },
                    }
                },
                Token::Assign(a, v) => {
                    let is_loc = match a.get_abs() {
                        Some(s) => eq_lit(s, "location"),
                        None => false,
                    };
                    if !is_loc {
                        proof {
                            lemma_templates_none(toks, k as int + 1);
                        }
                        return Err(());
                    }
                    match Object::group_plain(v) {
                        Some(l) => {
                            location = Some(l);
                        },
                        None => {
                            proof {
                                lemma_templates_none(toks, k as int + 1);
                            }
                            return Err(());
                        },
                    }
                },
                _ => {
                    proof {
                        lemma_templates_none(toks, k as int + 1);
                    }
                    return Err(());
                },
            }
            k = k + 1;
        }
        assert(toks.subrange(0, tokens@.len() as int) =~= toks);
        match location {
            Some(location) => Ok(Templates { location, map }),
            None => Err(()),
        }
    }

    /// The registry written out: its location, then one name per line.
    pub fn to_content(self) -> (r: String)
        ensures
            r@ == content_text(templates_tokens(self@)),
    {
        let mut tokens: Vec<Token> = Vec::new();
        tokens.push(location_tok(&self.location));
        let ghost names = self@.names;
        let mut i: usize = 0;
        while i < self.map.len()
            invariant
                0 <= i <= self.map@.len(),
                names == self@.names,
                toks_view(tokens@) == seq![location_token(self.location@)] + names.subrange(
                    0,
                    i as int,
                ).map_values(|n: Seq<char>| TokV::Declare(seq![ObjV::Str(n)])),
            decreases self.map.len() - i,
        {
            let v = vec![Object::String(self.map[i].clone())];
            assert(objs_view(v@) =~= seq![ObjV::Str(names[i as int])]);
            let t = Token::Declare(v);
            let ghost t0 = tokens@;
            tokens.push(t);
            assert(toks_view(tokens@) =~= toks_view(t0).push(t@));
            assert(names.subrange(0, i + 1).map_values(
                |n: Seq<char>| TokV::Declare(seq![ObjV::Str(n)]),
            ) =~= names.subrange(0, i as int).map_values(
                |n: Seq<char>| TokV::Declare(seq![ObjV::Str(n)]),
            ).push(t@));
            i = i + 1;
        }
        assert(names.subrange(0, names.len() as int) =~= names);
        Token::to_content(tokens.as_slice())
    }

    pub fn set_location(&mut self, location: String)
        ensures
            final(self)@ == (TemplatesV { location: location@, ..old(self)@ }),
    {
        self.location = location;
    }

    pub fn get_location(&self) -> (r: &String)
        ensures
            r@ == self@.location,
    {
        &self.location
    }

    /// The path of a registered template.
    pub fn try_get_template(&self, name: &str) -> (r: Option<String>)
        ensures
            self@.names.contains(name@) ==> (r matches Some(p) && p@ == joined_path(
                self@.location,
                name@,
            )),
            !self@.names.contains(name@) ==> r is None,
    {
        match find_name(&self.map, name) {
            Some(i) => {
                assert(self@.names[i as int] == name@);
                Some(join_path(self.location.as_str(), name))
            },
            None => {
                assert(!self@.names.contains(name@)) by {
                    if self@.names.contains(name@) {
                        let j = choose|j: int| 0 <= j < self@.names.len() && self@.names[j] == name@;
                        assert(self.map@[j]@ == name@);
                    }
                }
                None
            },
        }
    }

    /// Adds a template name; false, with nothing changed, when the name is
    /// known already.
    pub fn try_add(&mut self, name: String) -> (r: bool)
        ensures
            r == !old(self)@.names.contains(name@),
            final(self)@ == (TemplatesV {
                names: set_insert(old(self)@.names, name@),
                ..old(self)@
            }),
            distinct_names(old(self)@.names) ==> distinct_names(final(self)@.names),
    {
        let ghost mv = self@.names;
        match find_name(&self.map, name.as_str()) {
            Some(j) => {
                assert(mv[j as int] == name@);
                false
            },
            None => {
                assert(!mv.contains(name@)) by {
                    if mv.contains(name@) {
                        let j = choose|j: int| 0 <= j < mv.len() && #[trigger] mv[j] == name@;
                        assert(self.map@[j]@ == name@);
                    }
                }
                let ghost m0 = self.map@;
                self.map.push(name);
                assert(self@.names =~= mv.push(name@));
                true
            },
        }
    }

    /// The template names, in order.
    pub fn names(&self) -> (r: Vec<String>)
        ensures
            names_view(r@) == self@.names,
    {
        let mut out: Vec<String> = Vec::new();
        let mut i: usize = 0;
        while i < self.map.len()
            invariant
                0 <= i <= self.map@.len(),
                names_view(out@) == names_view(self.map@.subrange(0, i as int)),
            decreases self.map.len() - i,
        {
            let ghost o0 = out@;
            out.push(self.map[i].clone());
            assert(names_view(out@) =~= names_view(o0).push(self.map@[i as int]@));
            assert(names_view(self.map@.subrange(0, i + 1)) =~= names_view(
                self.map@.subrange(0, i as int),
            ).push(self.map@[i as int]@));
            i = i + 1;
        }
        assert(self.map@.subrange(0, self.map@.len() as int) =~= self.map@);
        out
    }

    /// Replaces the names with those found by a scan of the folder, each
    /// kept once.
    pub fn set_names(&mut self, names: Vec<String>)
        ensures
            final(self)@ == (TemplatesV { names: dedup_names(names_view(names@)), ..old(self)@ }),
            distinct_names(final(self)@.names),
    {
        let ghost nv = names_view(names@);
        let mut map: Vec<String> = Vec::new();
        let mut i: usize = 0;
        assert(names_view(map@) =~= dedup_names(nv.subrange(0, 0)));
        while i < names.len()
            invariant
                0 <= i <= names@.len(),
                nv == names_view(names@),
                names_view(map@) == dedup_names(nv.subrange(0, i as int)),
                distinct_names(names_view(map@)),
            decreases names.len() - i,
        {
            assert(nv.subrange(0, i + 1).drop_last() =~= nv.subrange(0, i as int));
            assert(nv[i as int] == names@[i as int]@);
            add_name(&mut map, names[i].clone());
            i = i + 1;
        }
        assert(nv.subrange(0, names@.len() as int) =~= nv);
        self.map = map;
    }
}

proof fn lemma_templates_none(toks: Seq<(TokV, nat)>, k: int)
    requires
        0 <= k <= toks.len(),
        templates_run(toks.subrange(0, k)) is None,
    ensures
        templates_run(toks) is None,
    decreases toks.len() - k,
{
    if k < toks.len() {
        assert(toks.subrange(0, k + 1).drop_last() =~= toks.subrange(0, k));
        lemma_templates_none(toks, k + 1);
    } else {
        assert(toks.subrange(0, k) =~= toks);
    }
}

} // verus!
