//! Writing tokens out and reading them back gives the same tokens.
use vstd::prelude::*;
use crate::chars::{is_space, split_on};
use super::parser::{
    close_spec, initial, line_token, line_tokens, run, split_lines, step,
    tokenize, tokens_of_lines, trim, var_char, DecodeMode, LexState,
};
use super::tokens::{
    bare_text, content_text, escape_bare, escape_quoted, joined_text, object_text, quoted_body,
    spaced_text, token_text, ObjV, TokV,
};

verus! {

/// The state after reading `s` from `st`.
pub open spec fn run_from(st: LexState, s: Seq<char>) -> LexState
    decreases s.len(),
{
    if s.len() == 0 {
        st
    } else {
        step(run_from(st, s.drop_last()), s.last())
    }
}

pub proof fn lemma_run_is_run_from(s: Seq<char>)
    ensures
        run(s) == run_from(initial(), s),
    decreases s.len(),
{
    if s.len() > 0 {
        lemma_run_is_run_from(s.drop_last());
    }
}

pub proof fn lemma_run_concat(st: LexState, a: Seq<char>, b: Seq<char>)
    ensures
        run_from(st, a + b) == run_from(run_from(st, a), b),
    decreases b.len(),
{
    if b.len() == 0 {
        assert(a + b =~= a);
    } else {
        lemma_run_concat(st, a, b.drop_last());
        assert((a + b).drop_last() =~= a + b.drop_last());
        assert((a + b).last() == b.last());
    }
}

pub proof fn lemma_run_one(st: LexState, c: char)
    ensures
        run_from(st, seq![c]) == step(st, c),
{
    assert(seq![c].drop_last() =~= Seq::<char>::empty());
    assert(run_from(st, seq![c].drop_last()) == st);
    assert(seq![c].last() == c);
}

pub proof fn lemma_run_two(st: LexState, c: char, d: char)
    ensures
        run_from(st, seq![c, d]) == step(step(st, c), d),
{
    assert(seq![c, d].drop_last() =~= seq![c]);
    lemma_run_one(st, c);
}

/// Bare text read in normal mode is held as the pending word.
pub proof fn lemma_bare(st: LexState, s: Seq<char>)
    requires
        st.mode == DecodeMode::Normal,
        !st.bs,
    ensures
        run_from(st, bare_text(s)) == (LexState { s: st.s + s, ..st }),
    decreases s.len(),
{
    if s.len() == 0 {
        assert(st.s + s =~= st.s);
    } else {
        let c = s.last();
        lemma_bare(st, s.drop_last());
        let mid = LexState { s: st.s + s.drop_last(), ..st };
        lemma_run_concat(st, bare_text(s.drop_last()), escape_bare(c));
        if is_space(c) || c == '"' || c == '\\' || c == '$' || c == '=' {
            lemma_run_two(mid, '\\', c);
        } else {
            lemma_run_one(mid, c);
        }
        assert(st.s + s =~= (st.s + s.drop_last()).push(c));
    }
}

/// Quoted text is held as it is.
pub proof fn lemma_quoted(st: LexState, s: Seq<char>)
    requires
        st.mode == DecodeMode::Str || st.mode == DecodeMode::VarFormat,
        !st.bs,
    ensures
        run_from(st, quoted_body(s)) == (LexState { s: st.s + s, ..st }),
    decreases s.len(),
{
    if s.len() == 0 {
        assert(st.s + s =~= st.s);
    } else {
        let c = s.last();
        lemma_quoted(st, s.drop_last());
        let mid = LexState { s: st.s + s.drop_last(), ..st };
        lemma_run_concat(st, quoted_body(s.drop_last()), escape_quoted(c));
        if c == '"' || c == '\\' {
            lemma_run_two(mid, '\\', c);
        } else {
            lemma_run_one(mid, c);
        }
        assert(st.s + s =~= (st.s + s.drop_last()).push(c));
    }
}

pub open spec fn all_var_chars(v: Seq<char>) -> bool {
    forall|i: int| 0 <= i < v.len() ==> var_char(#[trigger] v[i])
}

/// A variable name is held as it is.
pub proof fn lemma_var_name(st: LexState, v: Seq<char>)
    requires
        st.mode == DecodeMode::Var,
        !st.bs,
        all_var_chars(v),
    ensures
        run_from(st, v) == (LexState { s: st.s + v, ..st }),
    decreases v.len(),
{
    if v.len() == 0 {
        assert(st.s + v =~= st.s);
    } else {
        let c = v.last();
        assert(var_char(v[v.len() - 1]));
        assert(all_var_chars(v.drop_last())) by {
            assert forall|i: int| 0 <= i < v.drop_last().len() implies var_char(
                #[trigger] v.drop_last()[i],
            ) by {
                assert(v.drop_last()[i] == v[i]);
            }
        }
        lemma_var_name(st, v.drop_last());
        assert(st.s + v =~= (st.s + v.drop_last()).push(c));
    }
}

pub open spec fn no_nl(s: Seq<char>) -> bool {
    forall|i: int| 0 <= i < s.len() ==> #[trigger] s[i] != '\n'
}

/// Objects that read back as themselves: bare words and strings are not
/// empty, variable names are made of letters, digits and `_`, and no text
/// holds a line feed.
pub open spec fn obj_ok(o: ObjV) -> bool {
    match o {
        ObjV::Abs(s) => s.len() > 0 && no_nl(s),
        ObjV::Str(s) => s.len() > 0 && no_nl(s),
        ObjV::Var(v) => all_var_chars(v),
        ObjV::VarFmt(v, f) => all_var_chars(v) && no_nl(f),
    }
}

/// A bare word that starts with `:`.
pub open spec fn starts_colon(o: ObjV) -> bool {
    match o {
        ObjV::Abs(s) => s.len() > 0 && s[0] == ':',
        _ => false,
    }
}

/// Between objects: nothing pending, and either normal mode or just after a
/// variable.
pub open spec fn ready(st: LexState) -> bool {
    !st.bs && st.s.len() == 0 && (st.mode == DecodeMode::Normal || (st.mode == DecodeMode::PostVar
        && st.objs.len() > 0 && st.objs.last() is Var))
}

pub open spec fn normal_of(st: LexState) -> LexState {
    LexState { mode: DecodeMode::Normal, ..st }
}

/// The state right after the text of `o`, read from a ready state.
pub open spec fn after(st: LexState, o: ObjV) -> LexState {
    match o {
        ObjV::Abs(s) => LexState { mode: DecodeMode::Normal, s: s, ..st },
        ObjV::Str(_) => LexState { mode: DecodeMode::Normal, objs: st.objs.push(o), ..st },
        ObjV::Var(v) => LexState { mode: DecodeMode::Var, s: v, ..st },
        ObjV::VarFmt(_, _) => LexState { mode: DecodeMode::Normal, objs: st.objs.push(o), ..st },
    }
}

pub proof fn lemma_bare_first(s: Seq<char>)
    requires
        s.len() > 0,
    ensures
        bare_text(s).len() > 0,
        bare_text(s)[0] == escape_bare(s[0])[0],
    decreases s.len(),
{
    if s.len() == 1 {
        assert(bare_text(s.drop_last()) =~= Seq::<char>::empty());
        assert(bare_text(s) =~= escape_bare(s[0]));
    } else {
        lemma_bare_first(s.drop_last());
    }
}

/// A ready state reads a character that is neither whitespace nor `:` as
/// normal mode does.
pub proof fn lemma_first(st: LexState, t: Seq<char>)
    requires
        ready(st),
        t.len() > 0,
        !is_space(t[0]),
        st.mode == DecodeMode::PostVar ==> t[0] != ':',
    ensures
        run_from(st, t) == run_from(normal_of(st), t),
{
    let rest = t.drop_first();
    assert(t =~= seq![t[0]] + rest);
    lemma_run_concat(st, seq![t[0]], rest);
    lemma_run_concat(normal_of(st), seq![t[0]], rest);
    lemma_run_one(st, t[0]);
    lemma_run_one(normal_of(st), t[0]);
    if st.mode == DecodeMode::Normal {
        assert(normal_of(st) == st);
    }
    assert(step(st, t[0]) == step(normal_of(st), t[0]));
}

/// The text of an object, read from a ready state.
pub proof fn lemma_object(st: LexState, o: ObjV)
    requires
        ready(st),
        obj_ok(o),
        st.mode == DecodeMode::PostVar ==> !starts_colon(o),
    ensures
        run_from(st, object_text(o)) == after(st, o),
{
    let n = normal_of(st);
    assert(st.s =~= Seq::<char>::empty());
    match o {
        ObjV::Abs(s) => {
            lemma_bare_first(s);
            lemma_first(st, bare_text(s));
            lemma_bare(n, s);
            assert(n.s + s =~= s);
            assert(run_from(st, object_text(o)) == run_from(n, bare_text(s)));
            assert(LexState { s: n.s + s, ..n } == after(st, o));
        },
        ObjV::Str(s) => {
            let a = seq!['"'];
            let b = quoted_body(s);
            assert(object_text(o) == a + b + a);
            lemma_first(st, a + b + a);
            lemma_run_concat(n, a + b, a);
            lemma_run_concat(n, a, b);
            lemma_run_one(n, '"');
            let s1 = LexState { mode: DecodeMode::Str, ..n };
            assert(step(n, '"') == s1);
            lemma_quoted(s1, s);
            let s2 = LexState { s: s1.s + s, ..s1 };
            assert(s1.s + s =~= s);
            lemma_run_one(s2, '"');
            assert(run_from(st, object_text(o)) == after(st, o));
        },
        ObjV::Var(v) => {
            let a = seq!['$'];
            assert(object_text(o) == a + v);
            lemma_first(st, a + v);
            lemma_run_concat(n, a, v);
            lemma_run_one(n, '$');
            let s1 = LexState { mode: DecodeMode::Var, ..n };
            assert(step(n, '$') == s1);
            lemma_var_name(s1, v);
            assert(s1.s + v =~= v);
            assert(run_from(st, object_text(o)) == after(st, o));
        },
        ObjV::VarFmt(v, f) => {
            let a = seq!['$'];
            let c = seq![':'];
            let q = seq!['"'];
            let b = quoted_body(f);
            assert(object_text(o) =~= a + v + c + q + b + q);
            lemma_first(st, a + v + c + q + b + q);
            lemma_run_concat(n, a + v + c + q + b, q);
            lemma_run_concat(n, a + v + c + q, b);
            lemma_run_concat(n, a + v + c, q);
            lemma_run_concat(n, a + v, c);
            lemma_run_concat(n, a, v);
            lemma_run_one(n, '$');
            let s1 = LexState { mode: DecodeMode::Var, ..n };
            assert(step(n, '$') == s1);
            lemma_var_name(s1, v);
            let s2 = LexState { s: s1.s + v, ..s1 };
            lemma_run_one(s2, ':');
            let s3 = LexState {
                mode: DecodeMode::PostColon,
                s: Seq::empty(),
                objs: st.objs.push(ObjV::Var(s2.s)),
                ..n
            };
            assert(step(s2, ':') == s3);
            lemma_run_one(s3, '"');
            let s4 = LexState { mode: DecodeMode::VarFormat, ..s3 };
            assert(step(s3, '"') == s4);
            lemma_quoted(s4, f);
            let s5 = LexState { s: s4.s + f, ..s4 };
            lemma_run_one(s5, '"');
            assert(s1.s + v =~= v);
            assert(s4.s + f =~= f);
            assert(s5.objs.drop_last() == st.objs);
            assert(run_from(st, object_text(o)) == after(st, o));
        },
    }
}

/// The ready state after the objects `os` of a line, with key `set`.
pub open spec fn queued(set: Option<ObjV>, os: Seq<ObjV>) -> LexState {
    LexState {
        mode: if os.len() > 0 && os.last() is Var {
            DecodeMode::PostVar
        } else {
            DecodeMode::Normal
        },
        bs: false,
        s: Seq::empty(),
        objs: os,
        set,
    }
}

/// Objects that can stand one after another on a line.
pub open spec fn objs_ok(vs: Seq<ObjV>) -> bool {
    &&& forall|i: int| 0 <= i < vs.len() ==> obj_ok(#[trigger] vs[i])
    &&& forall|i: int| 0 < i < vs.len() ==> !(vs[i - 1] is Var && starts_colon(#[trigger] vs[i]))
}

/// A space after an object closes it.
pub proof fn lemma_sep(set: Option<ObjV>, os: Seq<ObjV>, o: ObjV)
    requires
        obj_ok(o),
    ensures
        step(after(queued(set, os), o), ' ') == queued(set, os.push(o)),
{
}

/// The end of the line closes the last object.
pub proof fn lemma_end(set: Option<ObjV>, os: Seq<ObjV>, o: ObjV)
    requires
        obj_ok(o),
    ensures
        close_spec(after(queued(set, os), o).mode, after(queued(set, os), o), ' ').0.objs == os.push(o),
{
}

proof fn lemma_objs_ok_prefix(vs: Seq<ObjV>)
    requires
        objs_ok(vs),
        vs.len() > 0,
    ensures
        objs_ok(vs.drop_last()),
        obj_ok(vs.last()),
        vs.len() > 1 ==> !(vs.drop_last().last() is Var && starts_colon(vs.last())),
{
    assert(obj_ok(vs[vs.len() - 1]));
    assert forall|i: int| 0 <= i < vs.drop_last().len() implies obj_ok(#[trigger] vs.drop_last()[i]) by {
        assert(obj_ok(vs[i]));
    }
    assert forall|i: int| 0 < i < vs.drop_last().len() implies !(vs.drop_last()[i - 1] is Var
        && starts_colon(#[trigger] vs.drop_last()[i])) by {
        assert(!(vs[i - 1] is Var && starts_colon(vs[i])));
    }
    if vs.len() > 1 {
        assert(!(vs[vs.len() - 2] is Var && starts_colon(vs[vs.len() - 1])));
    }
}

/// Values written each after a space, read from the state just after `=`.
pub proof fn lemma_spaced(set: Option<ObjV>, vs: Seq<ObjV>)
    requires
        objs_ok(vs),
    ensures
        vs.len() == 0 ==> run_from(queued(set, Seq::empty()), spaced_text(vs)) == queued(
            set,
            Seq::empty(),
        ),
        vs.len() > 0 ==> run_from(queued(set, Seq::empty()), spaced_text(vs)) == after(
            queued(set, vs.drop_last()),
            vs.last(),
        ),
    decreases vs.len(),
{
    if vs.len() > 0 {
        let pre = vs.drop_last();
        let q0 = queued(set, Seq::empty());
        lemma_objs_ok_prefix(vs);
        lemma_spaced(set, pre);
        lemma_run_concat(q0, spaced_text(pre) + seq![' '], object_text(vs.last()));
        lemma_run_concat(q0, spaced_text(pre), seq![' ']);
        let mid = run_from(q0, spaced_text(pre));
        lemma_run_one(mid, ' ');
        if pre.len() == 0 {
            assert(pre =~= Seq::<ObjV>::empty());
        } else {
            lemma_sep(set, pre.drop_last(), pre.last());
            assert(pre.drop_last().push(pre.last()) =~= pre);
        }
        assert(step(mid, ' ') == queued(set, pre));
        lemma_object(queued(set, pre), vs.last());
    }
}

/// Objects written with spaces between them, read from the start of a line.
pub proof fn lemma_joined(vs: Seq<ObjV>)
    requires
        objs_ok(vs),
        vs.len() > 0,
    ensures
        run_from(initial(), joined_text(vs)) == after(queued(None, vs.drop_last()), vs.last()),
    decreases vs.len(),
{
    lemma_objs_ok_prefix(vs);
    let pre = vs.drop_last();
    if vs.len() == 1 {
        assert(pre =~= Seq::<ObjV>::empty());
        assert(initial() == queued(None, pre));
        assert(vs[0] == vs.last());
        lemma_object(initial(), vs.last());
    } else {
        lemma_joined(pre);
        lemma_run_concat(initial(), joined_text(pre) + seq![' '], object_text(vs.last()));
        lemma_run_concat(initial(), joined_text(pre), seq![' ']);
        let mid = run_from(initial(), joined_text(pre));
        lemma_run_one(mid, ' ');
        lemma_sep(None, pre.drop_last(), pre.last());
        assert(pre.drop_last().push(pre.last()) =~= pre);
        lemma_object(queued(None, pre), vs.last());
    }
}

/// A written assignment or list reads back as itself.
pub proof fn lemma_line_token(t: TokV)
    requires
        match t {
            TokV::Tag(_) => false,
            TokV::Assign(k, vs) => obj_ok(k) && objs_ok(vs),
            TokV::Declare(vs) => vs.len() > 0 && objs_ok(vs),
        },
    ensures
        line_token(token_text(t)) == t,
{
    lemma_run_is_run_from(token_text(t));
    match t {
        TokV::Assign(k, vs) => {
            let e: Seq<ObjV> = Seq::empty();
            assert(initial() == queued(None, e));
            let a = object_text(k);
            let b = seq![' ', '='];
            let c = spaced_text(vs);
            lemma_run_concat(initial(), a + b, c);
            lemma_run_concat(initial(), a, b);
            lemma_object(initial(), k);
            let s1 = after(queued(None, e), k);
            lemma_run_two(s1, ' ', '=');
            lemma_sep(None, e, k);
            assert(e.push(k) =~= seq![k]);
            assert(step(queued(None, seq![k]), '=') == queued(Some(k), e));
            lemma_spaced(Some(k), vs);
            let st = run_from(queued(Some(k), e), c);
            if vs.len() > 0 {
                lemma_objs_ok_prefix(vs);
                lemma_end(Some(k), vs.drop_last(), vs.last());
                assert(vs.drop_last().push(vs.last()) =~= vs);
            } else {
                assert(vs =~= e);
            }
            assert(token_text(t) == a + b + c);
        },
        TokV::Declare(vs) => {
            lemma_joined(vs);
            lemma_objs_ok_prefix(vs);
            lemma_end(None, vs.drop_last(), vs.last());
            assert(vs.drop_last().push(vs.last()) =~= vs);
        },
        _ => {},
    }
}

// ---------------------------------------------------------------- lines

/// A bare word that starts with `c`.
pub open spec fn bare_starts(o: ObjV, c: char) -> bool {
    match o {
        ObjV::Abs(s) => s.len() > 0 && s[0] == c,
        _ => false,
    }
}

/// A bare word that ends with `c`.
pub open spec fn bare_ends(o: ObjV, c: char) -> bool {
    match o {
        ObjV::Abs(s) => s.len() > 0 && s.last() == c,
        _ => false,
    }
}

/// What may begin a line: not a bare word starting with `//`, which would
/// make the line a comment.
pub open spec fn opens_line(o: ObjV) -> bool {
    match o {
        ObjV::Abs(s) => !(s.len() >= 2 && s[0] == '/' && s[1] == '/'),
        _ => true,
    }
}

/// What may end a line: nothing whose written form ends in whitespace,
/// which the line's trimming would drop.
pub open spec fn closes_line(o: ObjV) -> bool {
    match o {
        ObjV::Abs(s) => !is_space(s.last()),
        ObjV::Var(v) => v.len() == 0 || !is_space(v.last()),
        _ => true,
    }
}

/// Tokens that are written on a line of their own and read back as they
/// are: a tag name without surrounding whitespace; objects as `objs_ok`
/// asks; no line that would read as a comment or a tag.
pub open spec fn token_ok(t: TokV) -> bool {
    match t {
        TokV::Tag(n) => no_nl(n) && trim(n) == n,
        TokV::Assign(k, vs) => obj_ok(k) && objs_ok(vs) && opens_line(k) && (vs.len() > 0 ==> (
        closes_line(vs.last()) && !(bare_starts(k, '[') && bare_ends(vs.last(), ']')))),
        TokV::Declare(vs) => vs.len() > 0 && objs_ok(vs) && opens_line(vs[0]) && closes_line(
            vs.last(),
        ) && !(bare_starts(vs[0], '[') && bare_ends(vs.last(), ']')),
    }
}

pub proof fn lemma_bare_front(s: Seq<char>)
    requires
        s.len() > 0,
    ensures
        bare_text(s) == escape_bare(s[0]) + bare_text(s.drop_first()),
    decreases s.len(),
{
    if s.len() == 1 {
        assert(s.drop_first() =~= Seq::<char>::empty());
        assert(s.drop_last() =~= Seq::<char>::empty());
        assert(bare_text(s) =~= escape_bare(s[0]) + bare_text(s.drop_first()));
    } else {
        lemma_bare_front(s.drop_last());
        assert(s.drop_last().drop_first() =~= s.drop_first().drop_last());
        assert(s.drop_first().last() == s.last());
        assert(bare_text(s) =~= escape_bare(s[0]) + bare_text(s.drop_first()));
    }
}

pub proof fn lemma_bare_nl(s: Seq<char>)
    requires
        no_nl(s),
    ensures
        no_nl(bare_text(s)),
        s.len() > 0 ==> bare_text(s).len() > 0 && bare_text(s).last() == s.last(),
    decreases s.len(),
{
    if s.len() > 0 {
        assert(no_nl(s.drop_last())) by {
            assert forall|i: int| 0 <= i < s.drop_last().len() implies #[trigger] s.drop_last()[i]
                != '\n' by {
                assert(s[i] != '\n');
            }
        }
        lemma_bare_nl(s.drop_last());
        assert(s[s.len() - 1] != '\n');
    }
}

pub proof fn lemma_quoted_nl(s: Seq<char>)
    requires
        no_nl(s),
    ensures
        no_nl(quoted_body(s)),
    decreases s.len(),
{
    if s.len() > 0 {
        assert(no_nl(s.drop_last())) by {
            assert forall|i: int| 0 <= i < s.drop_last().len() implies #[trigger] s.drop_last()[i]
                != '\n' by {
                assert(s[i] != '\n');
            }
        }
        lemma_quoted_nl(s.drop_last());
        assert(s[s.len() - 1] != '\n');
    }
}

pub proof fn lemma_object_text(o: ObjV)
    requires
        obj_ok(o),
    ensures
        no_nl(object_text(o)),
        object_text(o).len() > 0,
        object_text(o)[0] != '/' ==> !bare_starts(o, '/'),
        object_text(o)[0] == '[' <==> bare_starts(o, '['),
        !is_space(object_text(o)[0]),
        object_text(o).last() == ']' <==> bare_ends(o, ']'),
        closes_line(o) ==> !is_space(object_text(o).last()),
        !opens_line(o) <==> (object_text(o).len() >= 2 && object_text(o)[0] == '/' && object_text(
            o,
        )[1] == '/'),
{
    match o {
        ObjV::Abs(s) => {
            lemma_bare_nl(s);
            lemma_bare_first(s);
            lemma_bare_front(s);
            if s.len() >= 2 {
                lemma_bare_first(s.drop_first());
                assert(s.drop_first()[0] == s[1]);
            } else {
                assert(s.drop_first() =~= Seq::<char>::empty());
            }
        },
        ObjV::Str(s) => {
            lemma_quoted_nl(s);
            let t = object_text(o);
            assert(t == seq!['"'] + quoted_body(s) + seq!['"']);
            assert(no_nl(t));
        },
        ObjV::Var(v) => {
            let t = object_text(o);
            assert(no_nl(t)) by {
                assert forall|i: int| 0 <= i < t.len() implies #[trigger] t[i] != '\n' by {
                    if i > 0 {
                        assert(t[i] == v[i - 1]);
                        assert(var_char(v[i - 1]));
                    }
                }
            }
        },
        ObjV::VarFmt(v, f) => {
            lemma_quoted_nl(f);
            let t = object_text(o);
            assert(t =~= seq!['$'] + v + seq![':'] + seq!['"'] + quoted_body(f) + seq!['"']);
            assert(no_nl(t)) by {
                assert forall|i: int| 0 <= i < t.len() implies #[trigger] t[i] != '\n' by {
                    if 1 <= i < 1 + v.len() {
                        assert(t[i] == v[i - 1]);
                        assert(var_char(v[i - 1]));
                    } else if 3 + v.len() <= i < t.len() - 1 {
                        assert(t[i] == quoted_body(f)[i - 3 - v.len()]);
                    }
                }
            }
        },
    }
}

pub proof fn lemma_nl_concat(a: Seq<char>, b: Seq<char>)
    requires
        no_nl(a),
        no_nl(b),
    ensures
        no_nl(a + b),
{
    assert forall|i: int| 0 <= i < (a + b).len() implies #[trigger] (a + b)[i] != '\n' by {
        if i < a.len() {
            assert((a + b)[i] == a[i]);
        } else {
            assert((a + b)[i] == b[i - a.len()]);
        }
    }
}

pub proof fn lemma_joined_shape(vs: Seq<ObjV>)
    requires
        objs_ok(vs),
        vs.len() > 0,
    ensures
        no_nl(joined_text(vs)),
        joined_text(vs).len() >= object_text(vs[0]).len(),
        joined_text(vs).subrange(0, object_text(vs[0]).len() as int) == object_text(vs[0]),
        vs.len() > 1 ==> joined_text(vs)[object_text(vs[0]).len() as int] == ' ',
        vs.len() == 1 ==> joined_text(vs) == object_text(vs[0]),
        joined_text(vs).len() > 0,
        joined_text(vs).last() == object_text(vs.last()).last(),
    decreases vs.len(),
{
    lemma_objs_ok_prefix(vs);
    assert(obj_ok(vs[0]));
    lemma_object_text(vs[0]);
    lemma_object_text(vs.last());
    if vs.len() == 1 {
        assert(vs.last() == vs[0]);
        assert(joined_text(vs).subrange(0, object_text(vs[0]).len() as int) =~= object_text(vs[0]));
    } else {
        let pre = vs.drop_last();
        lemma_joined_shape(pre);
        assert(pre[0] == vs[0]);
        let j = joined_text(pre) + seq![' '] + object_text(vs.last());
        assert(joined_text(vs) == j);
        lemma_nl_concat(joined_text(pre), seq![' ']);
        lemma_nl_concat(joined_text(pre) + seq![' '], object_text(vs.last()));
        assert(j.subrange(0, object_text(vs[0]).len() as int) =~= joined_text(pre).subrange(
            0,
            object_text(vs[0]).len() as int,
        ));
        if pre.len() == 1 {
            assert(j[object_text(vs[0]).len() as int] == ' ');
        } else {
            assert(j[object_text(vs[0]).len() as int] == joined_text(pre)[object_text(
                vs[0],
            ).len() as int]);
        }
    }
}

pub proof fn lemma_spaced_shape(vs: Seq<ObjV>)
    requires
        objs_ok(vs),
    ensures
        no_nl(spaced_text(vs)),
        vs.len() > 0 ==> spaced_text(vs).len() > 0 && spaced_text(vs).last() == object_text(
            vs.last(),
        ).last(),
    decreases vs.len(),
{
    if vs.len() > 0 {
        lemma_objs_ok_prefix(vs);
        lemma_spaced_shape(vs.drop_last());
        lemma_object_text(vs.last());
        lemma_nl_concat(spaced_text(vs.drop_last()), seq![' ']);
        lemma_nl_concat(spaced_text(vs.drop_last()) + seq![' '], object_text(vs.last()));
    }
}

pub proof fn lemma_trim_clean(s: Seq<char>)
    requires
        s.len() > 0,
        !is_space(s[0]),
        !is_space(s.last()),
    ensures
        trim(s) == s,
{
}

/// A well-formed token's line reads back as the token.
pub proof fn lemma_token_line(t: TokV, i: nat)
    requires
        token_ok(t),
    ensures
        no_nl(token_text(t)),
        line_tokens(token_text(t), i) == seq![(t, i)],
{
    let x = token_text(t);
    match t {
        TokV::Tag(n) => {
            assert(x == seq!['['] + n + seq![']']);
            lemma_nl_concat(seq!['['], n);
            lemma_nl_concat(seq!['['] + n, seq![']']);
            lemma_trim_clean(x);
            assert(x.subrange(1, x.len() - 1) =~= n);
        },
        TokV::Assign(k, vs) => {
            lemma_object_text(k);
            lemma_spaced_shape(vs);
            let a = object_text(k);
            assert(x == a + seq![' ', '='] + spaced_text(vs));
            lemma_nl_concat(a, seq![' ', '=']);
            lemma_nl_concat(a + seq![' ', '='], spaced_text(vs));
            assert(x[0] == a[0]);
            if a.len() >= 2 {
                assert(x[1] == a[1]);
            } else {
                assert(x[1] == ' ');
            }
            if vs.len() > 0 {
                lemma_objs_ok_prefix(vs);
                lemma_object_text(vs.last());
                assert(x.last() == spaced_text(vs).last());
            } else {
                assert(x.last() == '=');
            }
            lemma_trim_clean(x);
            lemma_line_token(t);
        },
        TokV::Declare(vs) => {
            lemma_joined_shape(vs);
            lemma_object_text(vs[0]);
            lemma_objs_ok_prefix(vs);
            lemma_object_text(vs.last());
            let a = object_text(vs[0]);
            assert(x[0] == a[0]) by {
                assert(x.subrange(0, a.len() as int)[0] == x[0]);
            }
            if a.len() >= 2 {
                assert(x[1] == a[1]) by {
                    assert(x.subrange(0, a.len() as int)[1] == x[1]);
                }
            } else if vs.len() > 1 {
                assert(x[1] == ' ');
            } else {
                assert(x.len() == 1);
            }
            lemma_trim_clean(x);
            lemma_line_token(t);
        },
    }
}

/// Text without line feeds extends the last line.
pub proof fn lemma_split_extend(a: Seq<char>, b: Seq<char>)
    requires
        no_nl(b),
    ensures
        split_on(a + b, '\n') == split_on(a, '\n').update(
            split_on(a, '\n').len() - 1,
            split_on(a, '\n').last() + b,
        ),
        split_on(a + b, '\n').len() == split_on(a, '\n').len(),
    decreases b.len(),
{
    crate::chars::lemma_split_on_len(a, '\n');
    let p = split_on(a, '\n');
    if b.len() == 0 {
        assert(a + b =~= a);
        assert(p.last() + b =~= p.last());
        assert(p.update(p.len() - 1, p.last()) =~= p);
    } else {
        assert(no_nl(b.drop_last())) by {
            assert forall|i: int| 0 <= i < b.drop_last().len() implies #[trigger] b.drop_last()[i]
                != '\n' by {
                assert(b[i] != '\n');
            }
        }
        lemma_split_extend(a, b.drop_last());
        assert((a + b).drop_last() =~= a + b.drop_last());
        assert((a + b).last() == b.last());
        assert(b[b.len() - 1] != '\n');
        let q = split_on(a + b.drop_last(), '\n');
        assert(q.last() == p.last() + b.drop_last());
        assert(p.last() + b =~= (p.last() + b.drop_last()).push(b.last()));
        assert(split_on(a + b, '\n') =~= p.update(p.len() - 1, p.last() + b));
    }
}

/// The lines of written tokens: one per token, then an empty one.
pub proof fn lemma_split_content(ts: Seq<TokV>)
    requires
        forall|i: int| 0 <= i < ts.len() ==> no_nl(#[trigger] token_text(ts[i])),
    ensures
        split_lines(content_text(ts)) == ts.map_values(|t: TokV| token_text(t)).push(Seq::empty()),
    decreases ts.len(),
{
    if ts.len() == 0 {
        assert(split_lines(content_text(ts)) =~= ts.map_values(|t: TokV| token_text(t)).push(
            Seq::empty(),
        ));
    } else {
        let pre = ts.drop_last();
        assert forall|i: int| 0 <= i < pre.len() implies no_nl(#[trigger] token_text(pre[i])) by {
            assert(pre[i] == ts[i]);
        }
        lemma_split_content(pre);
        let tt = token_text(ts.last());
        assert(no_nl(token_text(ts[ts.len() - 1])));
        let c = content_text(pre);
        lemma_split_extend(c, tt);
        let l = pre.map_values(|t: TokV| token_text(t));
        assert(content_text(ts) == c + tt + seq!['\n']);
        assert((c + tt + seq!['\n']).drop_last() =~= c + tt);
        assert(Seq::<char>::empty() + tt =~= tt);
        assert(split_lines(content_text(ts)) =~= ts.map_values(|t: TokV| token_text(t)).push(
            Seq::empty(),
        ));
    }
}

proof fn lemma_lines_read(ts: Seq<TokV>)
    requires
        forall|i: int| 0 <= i < ts.len() ==> token_ok(#[trigger] ts[i]),
    ensures
        tokens_of_lines(ts.map_values(|t: TokV| token_text(t))) == Seq::new(
            ts.len(),
            |i: int| (ts[i], i as nat),
        ),
    decreases ts.len(),
{
    let ls = ts.map_values(|t: TokV| token_text(t));
    if ts.len() == 0 {
        assert(tokens_of_lines(ls) =~= Seq::new(ts.len(), |i: int| (ts[i], i as nat)));
    } else {
        let pre = ts.drop_last();
        assert forall|i: int| 0 <= i < pre.len() implies token_ok(#[trigger] pre[i]) by {
            assert(pre[i] == ts[i]);
        }
        lemma_lines_read(pre);
        assert(ls.drop_last() =~= pre.map_values(|t: TokV| token_text(t)));
        assert(token_ok(ts[ts.len() - 1]));
        lemma_token_line(ts.last(), (ts.len() - 1) as nat);
        assert(tokens_of_lines(ls) =~= Seq::new(ts.len(), |i: int| (ts[i], i as nat)));
    }
}

/// Writing tokens out and reading the text back gives the same tokens, each
/// with the index of its line, and writing those again gives the same text.
pub proof fn lemma_round_trip(ts: Seq<TokV>)
    requires
        forall|i: int| 0 <= i < ts.len() ==> token_ok(#[trigger] ts[i]),
    ensures
        tokenize(content_text(ts)) == Seq::new(ts.len(), |i: int| (ts[i], i as nat)),
        content_text(tokenize(content_text(ts)).map_values(|p: (TokV, nat)| p.0)) == content_text(
            ts,
        ),
{
    assert forall|i: int| 0 <= i < ts.len() implies no_nl(#[trigger] token_text(ts[i])) by {
        lemma_token_line(ts[i], 0);
    }
    lemma_split_content(ts);
    lemma_lines_read(ts);
    let ls = ts.map_values(|t: TokV| token_text(t));
    let full = ls.push(Seq::empty());
    assert(full.drop_last() =~= ls);
    assert(trim(Seq::<char>::empty()) =~= Seq::<char>::empty());
    assert(tokens_of_lines(full) =~= tokens_of_lines(ls));
    let back = tokenize(content_text(ts));
    assert(back.map_values(|p: (TokV, nat)| p.0) =~= ts);
}

} // verus!
