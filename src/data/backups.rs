//! The registry of projects that are backed up: where the backups live, and
//! for each project its source folder and whether its backup is still to be
//! created.
use vstd::prelude::*;
use vstd::pervasive::VecAdditionalExecFns;
use crate::chars::eq_lit;
use crate::file::parser::{pairs_view, tokenize};
use crate::file::tokens::{content_text, objs_view, plain_of, toks_view, ObjV, TokV};
use crate::file::{Object, Token};
use super::templates::{is_location_key, join_path, joined_path, location_tok, location_token};

verus! {

/// Why a registry change is refused.
#[derive(Debug, Clone, PartialEq, Eq)]
pub enum RegistryError {
    ProjectNameExists(String),
    InvalidProjectName(String),
    UnknownProject(String),
}

/// A project entry: name, source folder, and whether its backup is still
/// to be created.
pub type EntryV = (Seq<char>, Seq<char>, bool);

/// What a backup registry holds.
pub struct BackupsV {
    pub location: Seq<char>,
    pub entries: Seq<EntryV>,
}

/// The backup folder and the projects registered for backup.
pub struct Backups {
    location: String,
    map: Vec<(String, String, bool)>,
}

pub open spec fn entries_of(v: Seq<(String, String, bool)>) -> Seq<EntryV> {
    v.map_values(|e: (String, String, bool)| (e.0@, e.1@, e.2))
}

impl View for Backups {
    type V = BackupsV;

    closed spec fn view(&self) -> BackupsV {
        BackupsV { location: self.location@, entries: entries_of(self.map@) }
    }
}

/// The place of the last entry called `name`.
pub open spec fn index_of(es: Seq<EntryV>, name: Seq<char>) -> Option<int>
    decreases es.len(),
{
    if es.len() == 0 {
        None
    } else if es.last().0 == name {
        Some(es.len() - 1)
    } else {
        index_of(es.drop_last(), name)
    }
}

pub proof fn lemma_index_of(es: Seq<EntryV>, name: Seq<char>)
    ensures
        index_of(es, name) matches Some(i) ==> 0 <= i < es.len() && es[i].0 == name,
        index_of(es, name) is None ==> forall|j: int| 0 <= j < es.len() ==> es[j].0 != name,
    decreases es.len(),
{
    if es.len() > 0 {
        lemma_index_of(es.drop_last(), name);
        assert forall|j: int| 0 <= j < es.len() - 1 implies es.drop_last()[j] == es[j] by {}
    }
}

/// The entries with `name` set to `source` and `pending`, replacing an
/// entry of that name or else added at the end.
pub open spec fn entry_insert(es: Seq<EntryV>, name: Seq<char>, source: Seq<char>, pending: bool) -> Seq<
    EntryV,
> {
    match index_of(es, name) {
        Some(i) => es.update(i, (name, source, pending)),
        None => es.push((name, source, pending)),
    }
}

/// The registry read so far: location if given, whether `[imminent]` was
/// seen, and the entries.
pub open spec fn backups_run(toks: Seq<(TokV, nat)>) -> Option<(Option<Seq<char>>, bool, Seq<EntryV>)>
    decreases toks.len(),
{
    if toks.len() == 0 {
        Some((None, false, Seq::empty()))
    } else {
        match backups_run(toks.drop_last()) {
            None => None,
            Some((loc, imminent, es)) => match toks.last().0 {
                TokV::Assign(ObjV::Str(n), v) => match plain_of(v) {
                    Some(src) => Some((loc, imminent, entry_insert(es, n, src, imminent))),
                    None => None,
                },
                TokV::Assign(k, v) => if is_location_key(k) {
                    match plain_of(v) {
                        Some(l) => Some((Some(l), imminent, es)),
                        None => None,
                    }
                } else {
                    None
                },
                TokV::Tag(t) => if t == "imminent"@ {
                    Some((loc, true, es))
                } else {
                    None
                },
                _ => None,
            },
        }
    }
}

/// The registry a text describes: `location = ...`, then `"name" = source`
/// lines; those after an `[imminent]` line still need their backup.
pub open spec fn backups_of(content: Seq<char>) -> Option<BackupsV> {
    match backups_run(tokenize(content)) {
        Some((Some(l), _, es)) => Some(BackupsV { location: l, entries: es }),
        _ => None,
    }
}

pub open spec fn entry_token(e: EntryV) -> TokV {
    TokV::Assign(ObjV::Str(e.0), seq![ObjV::Str(e.1)])
}

/// The lines of the entries whose backup exists (`pending` false) or is
/// still to be created (`pending` true).
pub open spec fn entry_tokens(es: Seq<EntryV>, pending: bool) -> Seq<TokV>
    decreases es.len(),
{
    if es.len() == 0 {
        Seq::empty()
    } else {
        entry_tokens(es.drop_last(), pending) + if es.last().2 == pending {
            seq![entry_token(es.last())]
        } else {
            Seq::empty()
        }
    }
}

/// How a registry is written: the location, the entries whose backup
/// exists, then, if there are any others, `[imminent]` and those.
pub open spec fn backups_tokens(v: BackupsV) -> Seq<TokV> {
    let pending = entry_tokens(v.entries, true);
    seq![location_token(v.location)] + entry_tokens(v.entries, false) + if pending.len() > 0 {
        seq![TokV::Tag("imminent"@)] + pending
    } else {
        Seq::empty()
    }
}

fn find_entry(map: &Vec<(String, String, bool)>, name: &str) -> (r: Option<usize>)
    ensures
        r matches Some(i) ==> index_of(entries_of(map@), name@) == Some(i as int),
        r is None ==> index_of(entries_of(map@), name@) is None,
{
    let ghost es = entries_of(map@);
    let mut i = map.len();
    assert(es.subrange(0, i as int) =~= es);
    while i > 0
        invariant
            i <= map@.len(),
            es == entries_of(map@),
            index_of(es, name@) == index_of(es.subrange(0, i as int), name@),
        decreases i,
    {
        assert(es.subrange(0, i as int).drop_last() =~= es.subrange(0, i - 1));
        assert(es.subrange(0, i as int).last() == es[i - 1]);
        if eq_lit(map[i - 1].0.as_str(), name) {
            return Some(i - 1);
        }
        i = i - 1;
    }
    None
}

fn entry_tok(e: &(String, String, bool)) -> (r: Token)
    ensures
        r@ == entry_token((e.0@, e.1@, e.2)),
{
    let v = vec![Object::String(e.1.clone())];
    assert(objs_view(v@) =~= seq![ObjV::Str(e.1@)]);
    Token::Assign(Object::String(e.0.clone()), v)
}

fn push_entries(tokens: &mut Vec<Token>, map: &Vec<(String, String, bool)>, pending: bool)
    ensures
        toks_view(final(tokens)@) == toks_view(old(tokens)@) + entry_tokens(entries_of(map@), pending),
{
    let ghost es = entries_of(map@);
    let ghost start = toks_view(tokens@);
    let mut i: usize = 0;
    assert(start =~= start + entry_tokens(es.subrange(0, 0), pending));
    while i < map.len()
        invariant
            0 <= i <= map@.len(),
            es == entries_of(map@),
            toks_view(tokens@) == start + entry_tokens(es.subrange(0, i as int), pending),
        decreases map.len() - i,
    {
        assert(es.subrange(0, i + 1).drop_last() =~= es.subrange(0, i as int));
        assert(es[i as int] == (map@[i as int].0@, map@[i as int].1@, map@[i as int].2));
        let ghost t0 = tokens@;
        if map[i].2 == pending {
            let t = entry_tok(&map[i]);
            tokens.push(t);
            assert(toks_view(tokens@) =~= toks_view(t0).push(t@));
        }
        i = i + 1;
        assert(toks_view(tokens@) =~= start + entry_tokens(es.subrange(0, i as int), pending));
    }
    assert(es.subrange(0, map@.len() as int) =~= es);
}

proof fn lemma_backups_none(toks: Seq<(TokV, nat)>, k: int)
    requires
        0 <= k <= toks.len(),
        backups_run(toks.subrange(0, k)) is None,
    ensures
        backups_run(toks) is None,
    decreases toks.len() - k,
{
    if k < toks.len() {
        assert(toks.subrange(0, k + 1).drop_last() =~= toks.subrange(0, k));
        lemma_backups_none(toks, k + 1);
    } else {
        assert(toks.subrange(0, k) =~= toks);
    }
}

impl Backups {
    fn insert_entry(&mut self, name: String, source: String, pending: bool)
        ensures
            final(self)@ == (BackupsV {
                entries: entry_insert(old(self)@.entries, name@, source@, pending),
                ..old(self)@
            }),
    {
        let ghost m0 = self.map@;
        proof {
            lemma_index_of(entries_of(m0), name@);
        }
        match find_entry(&self.map, name.as_str()) {
            Some(i) => {
                self.map.set(i, (name, source, pending));
                assert(entries_of(self.map@) =~= entries_of(m0).update(
                    i as int,
                    (name@, source@, pending),
                ));
            },
            None => {
                self.map.push((name, source, pending));
                assert(entries_of(self.map@) =~= entries_of(m0).push((name@, source@, pending)));
            },
        }
    }

    pub fn new() -> (r: Backups)
        ensures
            r@ == (BackupsV { location: Seq::empty(), entries: Seq::empty() }),
    {
        let r = Backups { location: String::new(), map: Vec::new() };
        assert(r@.entries =~= Seq::<EntryV>::empty());
        r
    }

    /// Reads a registry; fails on any other line, on a variable, or when no
    /// location is given.
    pub fn from_content(content: &str) -> (r: Result<Backups, ()>)
        ensures
            match backups_of(content@) {
                Some(v) => r matches Ok(b) && b@ == v,
                None => r is Err,
            },
    {
        let tokens = Token::from_content(content);
        let ghost toks = pairs_view(tokens@);
        let mut b = Backups::new();
        let mut location: Option<String> = None;
        let mut imminent = false;
        let mut k: usize = 0;
        assert(toks.subrange(0, 0) =~= Seq::<(TokV, nat)>::empty());
        while k < tokens.len()
            invariant
                0 <= k <= tokens@.len(),
                toks == pairs_view(tokens@),
                toks == tokenize(content@),
                backups_run(toks.subrange(0, k as int)) == Some(
                    (
                        match location {
                            Some(l) => Some(l@),
                            None => None,
                        },
                        imminent,
                        b@.entries,
                    ),
                ),
            decreases tokens.len() - k,
        {
            assert(toks.subrange(0, k + 1).drop_last() =~= toks.subrange(0, k as int));
            assert(toks[k as int].0 == tokens@[k as int].0@);
            match &tokens[k].0 {
                Token::Assign(Object::String(n), v) => {
                    match Object::group_plain(v) {
                        Some(src) => {
                            b.insert_entry(n.clone(), src, imminent);
                        },
                        None => {
                            proof {
                                lemma_backups_none(toks, k as int + 1);
                            }
                            return Err(());
                        },
                    }
                },
                Token::Assign(a, v) => {
                    let is_loc = match a.get_abs() {
                        Some(s) => eq_lit(s, "location"),
                        None => false,
                    };
                    let plain = if is_loc {
                        Object::group_plain(v)
                    } else {
                        None
                    };
                    match plain {
                        Some(l) => {
                            location = Some(l);
                        },
                        None => {
                            proof {
                                lemma_backups_none(toks, k as int + 1);
                            }
                            return Err(());
                        },
                    }
                },
                Token::Tag(t) => {
                    if eq_lit(t.as_str(), "imminent") {
                        imminent = true;
                    } else {
                        proof {
                            lemma_backups_none(toks, k as int + 1);
                        }
                        return Err(());
                    }
                },
                _ => {
                    proof {
                        lemma_backups_none(toks, k as int + 1);
                    }
                    return Err(());
                },
            }
            k = k + 1;
        }
        assert(toks.subrange(0, tokens@.len() as int) =~= toks);
        match location {
            Some(l) => {
                b.location = l;
                Ok(b)
            },
            None => Err(()),
        }
    }

    /// The registry written out.
    pub fn to_content(self) -> (r: String)
        ensures
            r@ == content_text(backups_tokens(self@)),
    {
        let mut tokens: Vec<Token> = Vec::new();
        tokens.push(location_tok(&self.location));
        let ghost head = toks_view(tokens@);
        assert(head =~= seq![location_token(self@.location)]);
        push_entries(&mut tokens, &self.map, false);
        let mut pending: Vec<Token> = Vec::new();
        push_entries(&mut pending, &self.map, true);
        assert(toks_view(pending@) =~= entry_tokens(self@.entries, true));
        if pending.len() > 0 {
            let ghost t0 = tokens@;
            tokens.push(Token::Tag("imminent".to_owned()));
            assert(toks_view(tokens@) =~= toks_view(t0).push(TokV::Tag("imminent"@)));
            let ghost t1 = tokens@;
            let ghost moved = pending@;
            tokens.append(&mut pending);
            assert(toks_view(tokens@) =~= toks_view(t1) + toks_view(moved));
        }
        assert(toks_view(tokens@) =~= backups_tokens(self@));
        Token::to_content(tokens.as_slice())
    }
    pub fn get_location(&self) -> (r: &String)
        ensures
            r@ == self@.location,
    {
        &self.location
    }

    pub fn into_location(self) -> (r: String)
        ensures
            r@ == self@.location,
    {
        self.location
    }

    /// Sets the backup folder, given as an absolute path.
    pub fn set_location(&mut self, location: String)
        ensures
            final(self)@ == (BackupsV { location: location@, ..old(self)@ }),
    {
        self.location = location;
    }

    /// Removes a project; gives its backup path and whether its backup was
    /// still to be created.
    pub fn try_remove(&mut self, name: &str) -> (r: Option<(String, bool)>)
        ensures
            match index_of(old(self)@.entries, name@) {
                Some(i) => r matches Some(p) && p.0@ == joined_path(old(self)@.location, name@)
                    && p.1 == old(self)@.entries[i].2 && final(self)@ == (BackupsV {
                    entries: old(self)@.entries.remove(i),
                    ..old(self)@
                }),
                None => r is None && final(self)@ == old(self)@,
            },
    {
        proof {
            lemma_index_of(self@.entries, name@);
        }
        match find_entry(&self.map, name) {
            Some(i) => {
                let ghost m0 = self.map@;
                let e = self.map.remove(i);
                assert(entries_of(self.map@) =~= entries_of(m0).remove(i as int));
                Some((join_path(self.location.as_str(), name), e.2))
            },
            None => None,
        }
    }

    /// The source folder of a project.
    pub fn try_get_source(&self, name: &str) -> (r: Option<&str>)
        ensures
            match index_of(self@.entries, name@) {
                Some(i) => r matches Some(s) && s@ == self@.entries[i].1,
                None => r is None,
            },
    {
        proof {
            lemma_index_of(self@.entries, name@);
        }
        match find_entry(&self.map, name) {
            Some(i) => Some(self.map[i].1.as_str()),
            None => None,
        }
    }

    /// The backup path of a registered project.
    pub fn try_get_backup(&self, name: &str) -> (r: Option<String>)
        ensures
            match index_of(self@.entries, name@) {
                Some(_) => r matches Some(p) && p@ == joined_path(self@.location, name@),
                None => r is None,
            },
    {
        match find_entry(&self.map, name) {
            Some(_) => Some(join_path(self.location.as_str(), name)),
            None => None,
        }
    }

    /// Registers the project `name` whose folder is at `location` (an
    /// absolute path); `bp` says its backup already exists. The name must be
    /// new and may not be `location`.
    pub fn try_add_name(&mut self, name: String, location: String, bp: bool) -> (r: Result<
        (),
        RegistryError,
    >)
        ensures
            index_of(old(self)@.entries, name@) is Some ==> r == Err::<(), RegistryError>(
                RegistryError::ProjectNameExists(name),
            ) && final(self)@ == old(self)@,
            index_of(old(self)@.entries, name@) is None && name@ == "location"@ ==> r == Err::<
                (),
                RegistryError,
            >(RegistryError::InvalidProjectName(name)) && final(self)@ == old(self)@,
            index_of(old(self)@.entries, name@) is None && name@ != "location"@ ==> r is Ok
                && final(self)@ == (BackupsV {
                entries: old(self)@.entries.push((name@, location@, !bp)),
                ..old(self)@
            }),
    {
        if find_entry(&self.map, name.as_str()).is_some() {
            return Err(RegistryError::ProjectNameExists(name));
        }
        if eq_lit(name.as_str(), "location") {
            return Err(RegistryError::InvalidProjectName(name));
        }
        let ghost m0 = self.map@;
        self.map.push((name, location, !bp));
        assert(entries_of(self.map@) =~= entries_of(m0).push((name@, location@, !bp)));
        Ok(())
    }

    /// Registers a project under its new name and location and drops its
    /// old name `source`; gives the old and new backup paths when the name
    /// changed.
    pub fn try_move(&mut self, source: &str, name: String, location: String, bp: bool) -> (r:
        Result<Option<(String, String)>, RegistryError>)
        ensures
            index_of(old(self)@.entries, name@) is Some ==> r == Err::<
                Option<(String, String)>,
                RegistryError,
            >(RegistryError::ProjectNameExists(name)) && final(self)@ == old(self)@,
            index_of(old(self)@.entries, name@) is None && name@ == "location"@ ==> r == Err::<
                Option<(String, String)>,
                RegistryError,
            >(RegistryError::InvalidProjectName(name)) && final(self)@ == old(self)@,
            index_of(old(self)@.entries, name@) is None && name@ != "location"@ ==> ({
                let added = old(self)@.entries.push((name@, location@, !bp));
                if name@ == source@ {
                    r == Ok::<Option<(String, String)>, RegistryError>(None) && final(self)@ == (
                    BackupsV { entries: added, ..old(self)@ })
                } else {
                    match index_of(added, source@) {
                        Some(i) => (r matches Ok(Some(p)) && p.0@ == joined_path(
                            old(self)@.location,
                            source@,
                        ) && p.1@ == joined_path(old(self)@.location, name@)) && final(self)@ == (
                        BackupsV { entries: added.remove(i), ..old(self)@ }),
                        None => (r matches Err(RegistryError::UnknownProject(s)) && s@ == source@)
                            && final(self)@ == (BackupsV { entries: added, ..old(self)@ }),
                    }
                }
            }),
    {
        let new_name = name.clone();
        match self.try_add_name(name, location, bp) {
            Ok(()) => {},
            Err(e) => return Err(e),
        }
        if eq_lit(new_name.as_str(), source) {
            return Ok(None);
        }
        proof {
            lemma_index_of(self@.entries, source@);
        }
        match find_entry(&self.map, source) {
            Some(i) => {
                let ghost m0 = self.map@;
                self.map.remove(i);
                assert(entries_of(self.map@) =~= entries_of(m0).remove(i as int));
                let old_path = join_path(self.location.as_str(), source);
                let new_path = join_path(self.location.as_str(), new_name.as_str());
                Ok(Some((old_path, new_path)))
            },
            None => Err(RegistryError::UnknownProject(source.to_owned())),
        }
    }

    /// Whether `name` is registered with its folder at `location`.
    pub fn is_project(&self, name: &str, location: &str) -> (r: bool)
        ensures
            r == (index_of(self@.entries, name@) matches Some(i) && self@.entries[i].1
                == location@),
    {
        proof {
            lemma_index_of(self@.entries, name@);
        }
        match find_entry(&self.map, name) {
            Some(i) => eq_lit(self.map[i].1.as_str(), location),
            None => false,
        }
    }

    /// The entries: name, source folder, and whether the backup is still to
    /// be created.
    pub fn iter(&self) -> (r: Vec<(String, String, bool)>)
        ensures
            entries_of(r@) == self@.entries,
    {
        let mut out: Vec<(String, String, bool)> = Vec::new();
        let mut i: usize = 0;
        while i < self.map.len()
            invariant
                0 <= i <= self.map@.len(),
                entries_of(out@) == entries_of(self.map@.subrange(0, i as int)),
            decreases self.map.len() - i,
        {
            let ghost o0 = out@;
            out.push((self.map[i].0.clone(), self.map[i].1.clone(), self.map[i].2));
            assert(entries_of(out@) =~= entries_of(o0).push(
                (self.map@[i as int].0@, self.map@[i as int].1@, self.map@[i as int].2),
            ));
            assert(entries_of(self.map@.subrange(0, i + 1)) =~= entries_of(
                self.map@.subrange(0, i as int),
            ).push((self.map@[i as int].0@, self.map@[i as int].1@, self.map@[i as int].2)));
            i = i + 1;
        }
        assert(self.map@.subrange(0, self.map@.len() as int) =~= self.map@);
        out
    }

    /// Records whether the backup of `name` is still to be created.
    pub fn set_pending(&mut self, name: &str, pending: bool)
        ensures
            match index_of(old(self)@.entries, name@) {
                Some(i) => final(self)@ == (BackupsV {
                    entries: old(self)@.entries.update(
                        i,
                        (old(self)@.entries[i].0, old(self)@.entries[i].1, pending),
                    ),
                    ..old(self)@
                }),
                None => final(self)@ == old(self)@,
            },
    {
        proof {
            lemma_index_of(self@.entries, name@);
        }
        match find_entry(&self.map, name) {
            Some(i) => {
                let ghost m0 = self.map@;
                let (n, src, _) = self.map.remove(i);
                self.map.insert(i, (n, src, pending));
                assert(entries_of(self.map@) =~= entries_of(m0).update(
                    i as int,
                    (entries_of(m0)[i as int].0, entries_of(m0)[i as int].1, pending),
                ));
            },
            None => {},
        }
    }
}

} // verus!
