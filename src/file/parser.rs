//! The tokenizer: a per-line state machine over characters.
use vstd::prelude::*;
use crate::chars::{
    char_is_alphabetic, char_is_numeric, char_is_whitespace, chars_of, is_alnum, is_space,
    string_of, string_of_range, split_on, lemma_split_on_len,
};
use super::tokens::{lemma_objs_view_push, objs_view, var_name, ObjV, Object, TokV, Token};

verus! {

/// What the tokenizer is in the middle of on the current line.
#[derive(Debug, Clone, Copy, PartialEq, Eq, Structural)]
pub enum DecodeMode {
    Normal,
    Str,
    Var,
    PostVar,
    PostColon,
    VarFormat,
}

/// The tokenizer's state within one line.
pub struct LexState {
    pub mode: DecodeMode,
    pub bs: bool,
    pub s: Seq<char>,
    pub objs: Seq<ObjV>,
    pub set: Option<ObjV>,
}

pub open spec fn var_char(c: char) -> bool {
    is_alnum(c) || c == '_'
}

pub open spec fn should_close_spec(m: DecodeMode, c: char) -> bool {
    match m {
        DecodeMode::Normal => false,
        DecodeMode::Str | DecodeMode::VarFormat => c == '"',
        DecodeMode::Var => !var_char(c),
        DecodeMode::PostVar | DecodeMode::PostColon => !is_space(c),
    }
}

/// Whether whitespace is skipped, and whether a backslash escapes.
pub open spec fn checks_spec(m: DecodeMode) -> (bool, bool) {
    match m {
        DecodeMode::Normal => (true, true),
        DecodeMode::Str | DecodeMode::VarFormat => (false, true),
        DecodeMode::Var => (false, false),
        DecodeMode::PostVar | DecodeMode::PostColon => (true, false),
    }
}

/// The pending bare word, if any, becomes an object.
pub open spec fn flushed(st: LexState) -> LexState {
    if st.s.len() > 0 {
        LexState { s: Seq::empty(), objs: st.objs.push(ObjV::Abs(st.s)), ..st }
    } else {
        st
    }
}

/// Leaving mode `m` on character `c`: the new state, and whether `c` is
/// still to be read in the new mode.
pub open spec fn close_spec(m: DecodeMode, st: LexState, c: char) -> (LexState, bool) {
    match m {
        DecodeMode::Normal => (LexState { mode: DecodeMode::Normal, ..flushed(st) }, false),
        DecodeMode::Str => (
            LexState {
                mode: DecodeMode::Normal,
                s: Seq::empty(),
                objs: if st.s.len() > 0 {
                    st.objs.push(ObjV::Str(st.s))
                } else {
                    st.objs
                },
                ..st
            },
            false,
        ),
        DecodeMode::Var => {
            let next = if c == ':' {
                DecodeMode::PostColon
            } else if is_space(c) {
                DecodeMode::PostVar
            } else {
                DecodeMode::Normal
            };
            (
                LexState { mode: next, s: Seq::empty(), objs: st.objs.push(ObjV::Var(st.s)), ..st },
                !(c == ':' || is_space(c)),
            )
        },
        DecodeMode::PostVar => {
            if c == ':' {
                (LexState { mode: DecodeMode::PostColon, ..st }, false)
            } else {
                (LexState { mode: DecodeMode::Normal, ..st }, true)
            }
        },
        DecodeMode::PostColon => {
            if c == '"' {
                (LexState { mode: DecodeMode::VarFormat, ..st }, false)
            } else {
                (LexState { mode: DecodeMode::Normal, s: st.s.push(':'), ..st }, true)
            }
        },
        DecodeMode::VarFormat => (
            LexState {
                mode: DecodeMode::Normal,
                s: Seq::empty(),
                objs: st.objs.drop_last().push(ObjV::VarFmt(var_name(st.objs.last()), st.s)),
                ..st
            },
            false,
        ),
    }
}

/// Reading `c` in the current mode once no mode has to be left for it.
pub open spec fn step_open(st: LexState, c: char) -> LexState {
    let ch = checks_spec(st.mode);
    if ch.0 && is_space(c) {
        if st.mode == DecodeMode::Normal {
            flushed(st)
        } else {
            st
        }
    } else if ch.1 && c == '\\' {
        LexState { bs: true, ..st }
    } else {
        match st.mode {
            DecodeMode::Normal => {
                if c == '"' {
                    LexState { mode: DecodeMode::Str, ..flushed(st) }
                } else if c == '=' && st.set is None && st.objs.len() == 0 {
                    LexState { set: Some(ObjV::Abs(st.s)), s: Seq::empty(), ..st }
                } else if c == '=' && st.set is None && st.s.len() == 0 && st.objs.len() == 1 {
                    LexState { set: Some(st.objs[0]), objs: Seq::empty(), ..st }
                } else if c == '$' {
                    LexState { mode: DecodeMode::Var, ..flushed(st) }
                } else {
                    LexState { s: st.s.push(c), ..st }
                }
            },
            DecodeMode::Str | DecodeMode::VarFormat | DecodeMode::Var => LexState {
                s: st.s.push(c),
                ..st
            },
            _ => st,
        }
    }
}

/// One character of a line.
pub open spec fn step(st: LexState, c: char) -> LexState {
    if st.bs {
        LexState { bs: false, s: st.s.push(c), ..st }
    } else if should_close_spec(st.mode, c) {
        let (st1, go) = close_spec(st.mode, st, c);
        if go {
            step_open(st1, c)
        } else {
            st1
        }
    } else {
        step_open(st, c)
    }
}

pub open spec fn initial() -> LexState {
    LexState {
        mode: DecodeMode::Normal,
        bs: false,
        s: Seq::empty(),
        objs: Seq::empty(),
        set: None,
    }
}

pub open spec fn run(line: Seq<char>) -> LexState
    decreases line.len(),
{
    if line.len() == 0 {
        initial()
    } else {
        step(run(line.drop_last()), line.last())
    }
}

/// The token of a trimmed line that is neither a comment nor a tag.
pub open spec fn line_token(line: Seq<char>) -> TokV {
    let st = run(line);
    let fin = close_spec(st.mode, st, ' ').0;
    match st.set {
        Some(k) => TokV::Assign(k, fin.objs),
        None => TokV::Declare(fin.objs),
    }
}

pub open spec fn wf(st: LexState) -> bool {
    (st.mode == DecodeMode::PostVar || st.mode == DecodeMode::PostColon || st.mode
        == DecodeMode::VarFormat) ==> st.objs.len() > 0 && st.objs.last() is Var
}

pub proof fn lemma_step_wf(st: LexState, c: char)
    requires
        wf(st),
    ensures
        wf(step(st, c)),
{
}

// ---------------------------------------------------------------- lines

/// The text cut at each line feed; the last piece follows the last one.
pub open spec fn split_lines(s: Seq<char>) -> Seq<Seq<char>> {
    split_on(s, '\n')
}

pub open spec fn trim_start(s: Seq<char>) -> Seq<char>
    decreases s.len(),
{
    if s.len() > 0 && is_space(s[0]) {
        trim_start(s.drop_first())
    } else {
        s
    }
}

pub open spec fn trim_end(s: Seq<char>) -> Seq<char>
    decreases s.len(),
{
    if s.len() > 0 && is_space(s.last()) {
        trim_end(s.drop_last())
    } else {
        s
    }
}

/// The text without whitespace at either end.
pub open spec fn trim(s: Seq<char>) -> Seq<char> {
    trim_end(trim_start(s))
}

pub open spec fn is_comment(t: Seq<char>) -> bool {
    t.len() >= 2 && t[0] == '/' && t[1] == '/'
}

pub open spec fn is_tag_line(t: Seq<char>) -> bool {
    t.len() >= 2 && t[0] == '[' && t.last() == ']'
}

/// What one line of the text yields, tagged with its index.
pub open spec fn line_tokens(line: Seq<char>, idx: nat) -> Seq<(TokV, nat)> {
    let t = trim(line);
    if t.len() == 0 || is_comment(t) {
        Seq::empty()
    } else if is_tag_line(t) {
        seq![(TokV::Tag(trim(t.subrange(1, t.len() - 1))), idx)]
    } else {
        seq![(line_token(t), idx)]
    }
}

pub open spec fn tokens_of_lines(ls: Seq<Seq<char>>) -> Seq<(TokV, nat)>
    decreases ls.len(),
{
    if ls.len() == 0 {
        Seq::empty()
    } else {
        tokens_of_lines(ls.drop_last()) + line_tokens(ls.last(), (ls.len() - 1) as nat)
    }
}

/// The tokens of a text, each with the 0-based index of its line.
pub open spec fn tokenize(content: Seq<char>) -> Seq<(TokV, nat)> {
    tokens_of_lines(split_lines(content))
}

pub open spec fn pairs_view(v: Seq<(Token, usize)>) -> Seq<(TokV, nat)> {
    v.map_values(|p: (Token, usize)| (p.0@, p.1 as nat))
}

// ---------------------------------------------------------------- exec

/// The tokenizer's state within one line.
pub struct DecodeContext {
    pub mode: DecodeMode,
    pub bs: bool,
    pub s: Vec<char>,
    pub objs: Vec<Object>,
    pub set: Option<Object>,
}

pub open spec fn opt_obj(o: Option<Object>) -> Option<ObjV> {
    match o {
        Some(x) => Some(x@),
        None => None,
    }
}

impl View for DecodeContext {
    type V = LexState;

    open spec fn view(&self) -> LexState {
        LexState {
            mode: self.mode,
            bs: self.bs,
            s: self.s@,
            objs: objs_view(self.objs@),
            set: opt_obj(self.set),
        }
    }
}

impl DecodeContext {
    pub fn new() -> (r: Self)
        ensures
            r@ == initial(),
    {
        let r = DecodeContext {
            mode: DecodeMode::Normal,
            bs: false,
            s: Vec::new(),
            objs: Vec::new(),
            set: None,
        };
        assert(r@.objs =~= Seq::<ObjV>::empty());
        r
    }

    /// Takes the pending text out, leaving it empty.
    pub fn pop_str(&mut self) -> (r: String)
        ensures
            r@ == old(self)@.s,
            final(self)@ == (LexState { s: Seq::empty(), ..old(self)@ }),
    {
        let r = string_of(&self.s);
        self.s = Vec::new();
        r
    }

    fn flush(&mut self)
        ensures
            final(self)@ == flushed(old(self)@),
    {
        if self.s.len() > 0 {
            let str = self.pop_str();
            proof {
                lemma_objs_view_push(self.objs@, Object::Absolute(str));
            }
            self.objs.push(Object::Absolute(str));
        }
    }

    /// Leaves the current mode on `close_c`; true when `close_c` is still to
    /// be read.
    pub fn close_mode(&mut self, close_c: char) -> (r: bool)
        requires
            wf(old(self)@),
        ensures
            final(self)@ == close_spec(old(self).mode, old(self)@, close_c).0,
            r == close_spec(old(self).mode, old(self)@, close_c).1,
    {
        let m = self.mode;
        let r = m.close(close_c, self);
        self.mode = r.0;
        r.1
    }
}

impl DecodeMode {
    /// Leaving this mode on `close_c`: the next mode, and whether `close_c`
    /// is still to be read. The context's own mode is left as it is.
    pub fn close(self, close_c: char, context: &mut DecodeContext) -> (r: (Self, bool))
        requires
            (self == DecodeMode::VarFormat) ==> old(context)@.objs.len() > 0
                && old(context)@.objs.last() is Var,
        ensures
            r.0 == close_spec(self, old(context)@, close_c).0.mode,
            r.1 == close_spec(self, old(context)@, close_c).1,
            final(context)@ == (LexState {
                mode: old(context).mode,
                ..close_spec(self, old(context)@, close_c).0
            }),
    {
        match self {
            DecodeMode::Normal => {
                context.flush();
                (DecodeMode::Normal, false)
            },
            DecodeMode::Str => {
                if context.s.len() > 0 {
                    let str = context.pop_str();
                    proof {
                        lemma_objs_view_push(context.objs@, Object::String(str));
                    }
                    context.objs.push(Object::String(str));
                } else {
                    assert(context.s@ =~= Seq::<char>::empty());
                }
                (DecodeMode::Normal, false)
            },
            DecodeMode::Var => {
                let str = context.pop_str();
                proof {
                    lemma_objs_view_push(context.objs@, Object::Variable(str));
                }
                context.objs.push(Object::Variable(str));
                if close_c == ':' {
                    return (DecodeMode::PostColon, false);
                }
                if char_is_whitespace(close_c) {
                    return (DecodeMode::PostVar, false);
                }
                (DecodeMode::Normal, true)
            },
            DecodeMode::PostVar => {
                if close_c == ':' {
                    return (DecodeMode::PostColon, false);
                }
                (DecodeMode::Normal, true)
            },
            DecodeMode::PostColon => {
                if close_c == '"' {
                    return (DecodeMode::VarFormat, false);
                }
                context.s.push(':');
                (DecodeMode::Normal, true)
            },
            DecodeMode::VarFormat => {
                let ghost objs0 = context.objs@;
                let v = context.objs.pop();
                assert(objs_view(context.objs@) =~= objs_view(objs0).drop_last());
                assert(objs0.last()@ == objs_view(objs0).last());
                match v {
                    Some(Object::Variable(var)) => {
                        let str = context.pop_str();
                        proof {
                            lemma_objs_view_push(context.objs@, Object::VariableFormat(var, str));
                        }
                        context.objs.push(Object::VariableFormat(var, str));
                    },
                    _ => {
                        assert(false);
                    },
                }
                (DecodeMode::Normal, false)
            },
        }
    }

    pub fn should_close(&self, c: char) -> (r: bool)
        ensures
            r == should_close_spec(*self, c),
    {
        match self {
            DecodeMode::Normal => false,
            DecodeMode::Str | DecodeMode::VarFormat => c == '"',
            DecodeMode::Var => !(char_is_alphabetic(c) || char_is_numeric(c)) && c != '_',
            DecodeMode::PostVar | DecodeMode::PostColon => !char_is_whitespace(c),
        }
    }

    /// Whether whitespace is skipped, and whether a backslash escapes.
    pub fn checks(&self) -> (r: (bool, bool))
        ensures
            r == checks_spec(*self),
    {
        match self {
            DecodeMode::Normal => (true, true),
            DecodeMode::Str | DecodeMode::VarFormat => (false, true),
            DecodeMode::Var => (false, false),
            DecodeMode::PostVar | DecodeMode::PostColon => (true, false),
        }
    }
}

fn step_open_char(ctx: &mut DecodeContext, c: char)
    requires
        wf(old(ctx)@),
    ensures
        final(ctx)@ == step_open(old(ctx)@, c),
{
    let checks = ctx.mode.checks();
    if checks.0 && char_is_whitespace(c) {
        if ctx.mode == DecodeMode::Normal {
            ctx.flush();
        }
        return ;
    }
    if checks.1 && c == '\\' {
        ctx.bs = true;
        return ;
    }
    match ctx.mode {
        DecodeMode::Normal => {
            if c == '"' {
                ctx.flush();
                ctx.mode = DecodeMode::Str;
                return ;
            }
            if c == '=' && ctx.set.is_none() {
                if ctx.objs.len() == 0 {
                    let str = ctx.pop_str();
                    ctx.set = Some(Object::Absolute(str));
                    return ;
                } else if ctx.s.len() == 0 && ctx.objs.len() == 1 {
                    let ghost o0 = ctx.objs@;
                    ctx.set = ctx.objs.pop();
                    assert(o0[0]@ == objs_view(o0)[0]);
                    assert(objs_view(ctx.objs@) =~= Seq::<ObjV>::empty());
                    return ;
                }
            } else if c == '$' {
                ctx.flush();
                ctx.mode = DecodeMode::Var;
                return ;
            }
            ctx.s.push(c);
        },
        DecodeMode::Str | DecodeMode::VarFormat | DecodeMode::Var => {
            ctx.s.push(c);
        },
        _ => {},
    }
}

fn step_char(ctx: &mut DecodeContext, c: char)
    requires
        wf(old(ctx)@),
    ensures
        final(ctx)@ == step(old(ctx)@, c),
        wf(final(ctx)@),
{
    proof {
        lemma_step_wf(ctx@, c);
    }
    if ctx.bs {
        ctx.bs = false;
        ctx.s.push(c);
        return ;
    }
    if ctx.mode.should_close(c) {
        if !ctx.close_mode(c) {
            return ;
        }
        proof {
            lemma_step_wf(old(ctx)@, c);
        }
        assert(wf(ctx@));
    }
    step_open_char(ctx, c);
}

/// The bounds of `cs[a..b]` without whitespace at either end.
fn trim_range(cs: &Vec<char>, a: usize, b: usize) -> (r: (usize, usize))
    requires
        a <= b <= cs.len(),
    ensures
        a <= r.0 <= r.1 <= b,
        cs@.subrange(r.0 as int, r.1 as int) == trim(cs@.subrange(a as int, b as int)),
{
    let mut i = a;
    while i < b && char_is_whitespace(cs[i])
        invariant
            a <= i <= b <= cs.len(),
            trim_start(cs@.subrange(a as int, b as int)) == trim_start(
                cs@.subrange(i as int, b as int),
            ),
        decreases b - i,
    {
        assert(cs@.subrange(i as int, b as int).drop_first() =~= cs@.subrange(
            i + 1,
            b as int,
        ));
        i = i + 1;
    }
    let mut j = b;
    while j > i && char_is_whitespace(cs[j - 1])
        invariant
            a <= i <= j <= b <= cs.len(),
            trim_end(cs@.subrange(i as int, b as int)) == trim_end(
                cs@.subrange(i as int, j as int),
            ),
        decreases j - i,
    {
        assert(cs@.subrange(i as int, j as int).drop_last() =~= cs@.subrange(
            i as int,
            j - 1,
        ));
        j = j - 1;
    }
    (i, j)
}

fn lex_range(cs: &Vec<char>, a: usize, b: usize) -> (r: Token)
    requires
        a <= b <= cs.len(),
    ensures
        r@ == line_token(cs@.subrange(a as int, b as int)),
{
    let mut ctx = DecodeContext::new();
    let mut i = a;
    while i < b
        invariant
            a <= i <= b <= cs.len(),
            ctx@ == run(cs@.subrange(a as int, i as int)),
            wf(ctx@),
        decreases b - i,
    {
        let ghost pre = cs@.subrange(a as int, i as int);
        step_char(&mut ctx, cs[i]);
        i = i + 1;
        assert(cs@.subrange(a as int, i as int).drop_last() =~= pre);
    }
    ctx.close_mode(' ');
    match ctx.set {
        Some(k) => Token::Assign(k, ctx.objs),
        None => Token::Declare(ctx.objs),
    }
}

fn lex_line(cs: &Vec<char>, a: usize, b: usize, idx: usize, out: &mut Vec<(Token, usize)>)
    requires
        a <= b <= cs.len(),
        idx <= a,
        forall|k: int| 0 <= k < old(out)@.len() ==> #[trigger] old(out)@[k].1 < usize::MAX,
    ensures
        forall|k: int| 0 <= k < final(out)@.len() ==> #[trigger] final(out)@[k].1 < usize::MAX,
        pairs_view(final(out)@) == pairs_view(old(out)@) + line_tokens(
            cs@.subrange(a as int, b as int),
            idx as nat,
        ),
{
    let (ta, tb) = trim_range(cs, a, b);
    let ghost t = cs@.subrange(ta as int, tb as int);
    if ta == tb || (tb - ta >= 2 && cs[ta] == '/' && cs[ta + 1] == '/') {
        assert(pairs_view(out@) =~= pairs_view(out@) + Seq::<(TokV, nat)>::empty());
        return ;
    }
    let tok = if tb - ta >= 2 && cs[ta] == '[' && cs[tb - 1] == ']' {
        let (na, nb) = trim_range(cs, ta + 1, tb - 1);
        assert(t.subrange(1, t.len() - 1) =~= cs@.subrange(ta + 1, tb - 1));
        Token::Tag(string_of_range(cs, na, nb))
    } else {
        lex_range(cs, ta, tb)
    };
    let ghost before = out@;
    out.push((tok, idx));
    assert(pairs_view(out@) =~= pairs_view(before) + line_tokens(
        cs@.subrange(a as int, b as int),
        idx as nat,
    ));
}

impl Token {
    /// Splits the text into lines and returns the token of each meaningful
    /// one with its 0-based line index. Blank lines and lines starting with
    /// `//` yield nothing. Never fails.
    pub fn from_content(content: &str) -> (r: Vec<(Token, usize)>)
        ensures
            pairs_view(r@) == tokenize(content@),
            forall|k: int| 0 <= k < r@.len() ==> #[trigger] r@[k].1 < usize::MAX,
    {
        let cs = chars_of(content);
        let mut res: Vec<(Token, usize)> = Vec::new();
        let mut start: usize = 0;
        let mut line_no: usize = 0;
        let mut i: usize = 0;
        proof {
            assert(cs@.subrange(0, 0) =~= Seq::<char>::empty());
            assert(pairs_view(res@) =~= Seq::<(TokV, nat)>::empty());
        }
        while i < cs.len()
            invariant
                0 <= start <= i <= cs.len(),
                line_no <= start,
                forall|k: int| 0 <= k < res@.len() ==> #[trigger] res@[k].1 < usize::MAX,
                cs@ == content@,
                split_lines(cs@.subrange(0, i as int)).len() == line_no + 1,
                split_lines(cs@.subrange(0, i as int)).last() == cs@.subrange(
                    start as int,
                    i as int,
                ),
                pairs_view(res@) == tokens_of_lines(
                    split_lines(cs@.subrange(0, i as int)).drop_last(),
                ),
            decreases cs.len() - i,
        {
            let ghost p = split_lines(cs@.subrange(0, i as int));
            assert(cs@.subrange(0, i + 1).drop_last() =~= cs@.subrange(0, i as int));
            if cs[i] == '\n' {
                lex_line(&cs, start, i, line_no, &mut res);
                assert(p.push(Seq::empty()).drop_last() =~= p);
                assert(p.drop_last().push(p.last()) =~= p);
                start = i + 1;
                line_no = line_no + 1;
                i = i + 1;
                assert(cs@.subrange(start as int, i as int) =~= Seq::<char>::empty());
            } else {
                let ghost q = p.update(p.len() - 1, p.last().push(cs@[i as int]));
                assert(q.drop_last() =~= p.drop_last());
                i = i + 1;
                assert(cs@.subrange(start as int, i as int) =~= cs@.subrange(
                    start as int,
                    i - 1,
                ).push(cs@[i - 1]));
            }
        }
        let ghost p = split_lines(cs@);
        assert(cs@.subrange(0, cs.len() as int) =~= cs@);
        lex_line(&cs, start, cs.len(), line_no, &mut res);
        proof {
            lemma_split_on_len(cs@, '\n');
            assert(p.drop_last().push(p.last()) =~= p);
        }
        res
    }
}

} // verus!
