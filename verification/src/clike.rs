//! The scanner for C-family languages (C, C++, Java): function
//! declarations and identifier declarations/uses, each recognized by a
//! character-level finite-state machine run once over the text.
//! Identifier resolution walks a stack of lexical scope frames pushed and
//! popped in lockstep with brace characters, innermost frame first.
//!
//! Offsets are character offsets, and classification (alphanumeric,
//! alphabetic, whitespace) follows the Unicode tables of the standard
//! library, shared by both scanners.

use vstd::prelude::*;
use vstd::string::StrSliceExecFns;

verus! {

/// How `char::is_alphanumeric` classifies a character; a function of the
/// character alone.
pub uninterp spec fn alnum(c: char) -> bool;

/// How `char::is_alphabetic` classifies a character; a function of the
/// character alone.
pub uninterp spec fn alpha(c: char) -> bool;

/// How `char::is_whitespace` classifies a character; a function of the
/// character alone.
pub uninterp spec fn white(c: char) -> bool;

/// Relies on char::is_alphanumeric: letter-or-digit classification by the
/// Unicode tables, depending on the character alone.
pub assume_specification[ char::is_alphanumeric ](c: char) -> (r: bool)
    ensures
        r == alnum(c),
;

/// Relies on char::is_alphabetic: letter classification by the Unicode
/// tables, depending on the character alone.
pub assume_specification[ char::is_alphabetic ](c: char) -> (r: bool)
    ensures
        r == alpha(c),
;

/// Relies on char::is_whitespace: whitespace classification by the Unicode
/// tables, depending on the character alone.
pub assume_specification[ char::is_whitespace ](c: char) -> (r: bool)
    ensures
        r == white(c),
;

/// One recognized function declaration.
#[derive(Debug, Clone, PartialEq, Eq)]
pub struct Function {
    pub name: String,
}

impl Function {
    pub fn new(name: String) -> (r: Self)
        ensures
            r.name == name,
    {
        Self { name }
    }
}

/// One recognized identifier declaration or use: its name, the type it
/// resolves to, and its character offsets in the scanned text.
#[derive(Debug, Clone, PartialEq, Eq)]
pub struct Identifier {
    pub name: String,
    pub typ: String,
    pub start: usize,
    pub end: usize,
}

impl Identifier {
    pub fn new(name: String, typ: String, start: usize, end: usize) -> (r: Self)
        ensures
            r.name == name && r.typ == typ && r.start == start && r.end == end,
    {
        Self { name, typ, start, end }
    }
}

/// The scanner for C-family languages.
pub struct Clike {}

/// The keyword set that never names a declared type or variable: access
/// and visibility modifiers, `import`, `void`, the boolean literals and
/// `extends`.
pub open spec fn allowed(s: Seq<char>) -> bool {
    !(s == "public"@ || s == "package"@ || s == "private"@ || s == "protected"@ || s == "import"@
        || s == "void"@ || s == "true"@ || s == "false"@ || s == "extends"@)
}

impl Clike {
    /// Whether a token may serve as a declared name or type.
    pub fn is_allowed(x: &str) -> (r: bool)
        ensures
            r == allowed(x@),
    {
        let o = x.to_owned();
        !(o == "public".to_owned() || o == "package".to_owned() || o == "private".to_owned() || o
            == "protected".to_owned() || o == "import".to_owned() || o == "void".to_owned() || o
            == "true".to_owned() || o == "false".to_owned() || o == "extends".to_owned())
    }
}

/// The state of the function scanner: outside any candidate, inside a
/// candidate name, inside its parenthesized parameter list (with nesting
/// depth), in the whitespace after the list, or just past the opening
/// brace.
pub enum FnScanState {
    Idle,
    Name,
    Parens(int),
    Space,
    Brace,
}

/// The function scanner's full configuration: state, the recorded name
/// start and end offsets, and the names emitted so far.
pub struct FnScan {
    pub st: FnScanState,
    pub start: int,
    pub end: int,
    pub out: Seq<Seq<char>>,
}

/// One step of the function scanner on character `i` of `text`.
///
/// From `Idle` an alphanumeric character opens a candidate name.  `(` ends
/// the name and opens the parameter list, inside which parentheses nest;
/// at depth zero, whitespace moves past the list and `{` accepts.  In the
/// trailing space another alphanumeric run restarts the name (a modifier
/// token), `{` accepts, and anything else abandons the candidate.  The
/// acceptance state emits the recorded name on the following character;
/// `fn_scan_all` flushes it when the text ends there instead.
pub open spec fn fn_scan_step(cfg: FnScan, text: Seq<char>, i: int) -> FnScan {
    let c = text[i];
    match cfg.st {
        FnScanState::Idle => if alnum(c) {
            FnScan { st: FnScanState::Name, start: i, ..cfg }
        } else {
            cfg
        },
        FnScanState::Name => if c == '(' {
            FnScan { st: FnScanState::Parens(1), end: i, ..cfg }
        } else if !alnum(c) {
            FnScan { st: FnScanState::Idle, ..cfg }
        } else {
            cfg
        },
        FnScanState::Parens(d) => if c == '(' {
            FnScan { st: FnScanState::Parens(d + 1), ..cfg }
        } else if c == ')' {
            FnScan { st: FnScanState::Parens(d - 1), ..cfg }
        } else if white(c) && d == 0 {
            FnScan { st: FnScanState::Space, ..cfg }
        } else if c == '{' && d == 0 {
            FnScan { st: FnScanState::Brace, ..cfg }
        } else {
            cfg
        },
        FnScanState::Space => if alnum(c) {
            FnScan { st: FnScanState::Name, start: i, ..cfg }
        } else if c == '{' {
            FnScan { st: FnScanState::Brace, ..cfg }
        } else if !white(c) {
            FnScan { st: FnScanState::Idle, ..cfg }
        } else {
            cfg
        },
        FnScanState::Brace => FnScan {
            st: FnScanState::Idle,
            out: cfg.out.push(text.subrange(cfg.start, cfg.end)),
            ..cfg
        },
    }
}

/// The function scanner run over the first `n` characters of `text`.
pub open spec fn fn_scan(text: Seq<char>, n: int) -> FnScan
    decreases n,
{
    if n <= 0 {
        FnScan { st: FnScanState::Idle, start: 0, end: 0, out: Seq::empty() }
    } else {
        fn_scan_step(fn_scan(text, n - 1), text, n - 1)
    }
}

/// The names of a full scan: the acceptance state always emits, so a
/// candidate whose opening brace is the last character of the text is
/// flushed at the end.
pub open spec fn fn_scan_all(text: Seq<char>) -> Seq<Seq<char>> {
    let cfg = fn_scan(text, text.len() as int);
    if cfg.st is Brace {
        cfg.out.push(text.subrange(cfg.start, cfg.end))
    } else {
        cfg.out
    }
}

/// The executable state of the function scanner; the parenthesis depth is
/// carried in signed-magnitude form (`d - u`, with one of the two zero) so
/// an unmatched closing parenthesis needs no signed arithmetic.
enum FnSt {
    Idle,
    Name,
    Parens(usize, usize),
    Space,
    Brace,
}

/// Bounds on the depth counters, for overflow-freedom.
spec fn fn_depth_ok(e: FnSt, i: int) -> bool {
    match e {
        FnSt::Parens(d, u) => d <= i && u <= i,
        _ => true,
    }
}

/// The executable state mirrors the specification state.
spec fn fn_st_matches(e: FnSt, s: FnScanState) -> bool {
    match e {
        FnSt::Idle => s is Idle,
        FnSt::Name => s is Name,
        FnSt::Parens(d, u) => (s matches FnScanState::Parens(v) && v == d - u && (d == 0 || u
            == 0)),
        FnSt::Space => s is Space,
        FnSt::Brace => s is Brace,
    }
}

impl Clike {
    /// Scans `text` once and returns, in source order, one record per
    /// recognized function declaration, each holding the name found
    /// between the recorded start offset and the opening parenthesis of
    /// its parameter list; reaching the acceptance state always emits,
    /// also when the opening brace ends the text.  A parenthesized form
    /// that is abandoned, or one whose parentheses never close, emits
    /// nothing.
    #[verifier::loop_isolation(false)]
    #[verifier::rlimit(60)]
    pub fn read_functions(&self, text: &str) -> (r: Vec<Function>)
        ensures
            r@.len() == fn_scan_all(text@).len(),
            forall|i: int|
                0 <= i < r@.len() ==> (#[trigger] r@[i]).name@ == fn_scan_all(text@)[i],
    {
        let n = text.unicode_len();
        let mut st = FnSt::Idle;
        let mut startv: usize = 0;
        let mut endv: usize = 0;
        let mut out: Vec<Function> = Vec::new();
        let mut i: usize = 0;
        while i < n
            invariant
                n == text@.len(),
                i <= n,
                fn_st_matches(st, fn_scan(text@, i as int).st),
                startv as int == fn_scan(text@, i as int).start,
                endv as int == fn_scan(text@, i as int).end,
                startv <= n,
                endv <= n,
                (st is Parens || st is Space || st is Brace) ==> startv <= endv,
                st is Name ==> startv < i,
                fn_depth_ok(st, i as int),
                out@.len() == fn_scan(text@, i as int).out.len(),
                forall|k: int|
                    0 <= k < out@.len() ==> (#[trigger] out@[k]).name@ == fn_scan(
                        text@,
                        i as int,
                    ).out[k],
            decreases n - i,
        {
            let c = text.get_char(i);
            let ghost cfg = fn_scan(text@, i as int);
            proof {
                assert(fn_scan(text@, i + 1) == fn_scan_step(cfg, text@, i as int));
            }
            match st {
                FnSt::Idle => {
                    if c.is_alphanumeric() {
                        st = FnSt::Name;
                        startv = i;
                    }
                },
                FnSt::Name => {
                    if c == '(' {
                        st = FnSt::Parens(1, 0);
                        endv = i;
                    } else if !c.is_alphanumeric() {
                        st = FnSt::Idle;
                    }
                },
                FnSt::Parens(d, u) => {
                    if c == '(' {
                        if u > 0 {
                            st = FnSt::Parens(d, u - 1);
                        } else {
                            st = FnSt::Parens(d + 1, 0);
                        }
                    } else if c == ')' {
                        if d > 0 {
                            st = FnSt::Parens(d - 1, u);
                        } else {
                            st = FnSt::Parens(0, u + 1);
                        }
                    } else if c.is_whitespace() && d == 0 && u == 0 {
                        st = FnSt::Space;
                    } else if c == '{' && d == 0 && u == 0 {
                        st = FnSt::Brace;
                    } else {
                        st = FnSt::Parens(d, u);
                    }
                },
                FnSt::Space => {
                    if c.is_alphanumeric() {
                        st = FnSt::Name;
                        startv = i;
                    } else if c == '{' {
                        st = FnSt::Brace;
                    } else if !c.is_whitespace() {
                        st = FnSt::Idle;
                    }
                },
                FnSt::Brace => {
                    let name = text.substring_char(startv, endv).to_owned();
                    out.push(Function::new(name));
                    st = FnSt::Idle;
                },
            }
            i = i + 1;
        }
        match st {
            FnSt::Brace => {
                let name = text.substring_char(startv, endv).to_owned();
                out.push(Function::new(name));
            },
            _ => {},
        }
        out
    }
}


/// The mathematical view of one identifier record.
pub struct IdentView {
    pub name: Seq<char>,
    pub typ: Seq<char>,
    pub start: int,
    pub end: int,
}

/// The state of the identifier scanner: outside any token, suppressing a
/// dotted member-access chain, inside a first token, in the whitespace
/// after it, or inside a second token (the two-token declaration form).
#[derive(Debug, Clone, Copy, PartialEq, Eq, Structural)]
pub enum IdSt {
    Idle,
    Dot,
    Name1,
    Space,
    Name2,
}

/// The identifier scanner's full configuration: state, recorded token
/// offsets, the stack of scope frames (innermost last, newest binding
/// last), and the records emitted so far.
pub struct IdScan {
    pub st: IdSt,
    pub n1s: int,
    pub n1e: int,
    pub n2s: int,
    pub frames: Seq<Seq<(Seq<char>, Seq<char>)>>,
    pub out: Seq<IdentView>,
}

/// The token between offsets `a` and `b`, or the empty token when the
/// recorded offsets do not form a range (a scanner state reached through
/// an abandoned token).
pub open spec fn id_token(text: Seq<char>, a: int, b: int) -> Seq<char> {
    if 0 <= a <= b <= text.len() {
        text.subrange(a, b)
    } else {
        Seq::empty()
    }
}

/// The newest binding of `name` in one frame.
pub open spec fn frame_lookup(frame: Seq<(Seq<char>, Seq<char>)>, name: Seq<char>) -> Option<
    Seq<char>,
>
    decreases frame.len(),
{
    if frame.len() == 0 {
        None
    } else if frame.last().0 == name {
        Some(frame.last().1)
    } else {
        frame_lookup(frame.drop_last(), name)
    }
}

/// The binding of `name` in the innermost frame that holds one: the first
/// frame found wins, so shadowed outer bindings are never reported.
pub open spec fn stack_lookup(
    frames: Seq<Seq<(Seq<char>, Seq<char>)>>,
    name: Seq<char>,
) -> Option<Seq<char>>
    decreases frames.len(),
{
    if frames.len() == 0 {
        None
    } else {
        match frame_lookup(frames.last(), name) {
            Some(t) => Some(t),
            None => stack_lookup(frames.drop_last(), name),
        }
    }
}

/// Emits a use record for the token at `a..b` if some frame binds it.
pub open spec fn id_emit_use(cfg: IdScan, text: Seq<char>, a: int, b: int) -> IdScan {
    let name = id_token(text, a, b);
    match stack_lookup(cfg.frames, name) {
        Some(t) => IdScan {
            out: cfg.out.push(IdentView { name: name, typ: t, start: a, end: b }),
            ..cfg
        },
        None => cfg,
    }
}

/// One step of the identifier scanner on character `i` of `text`.
///
/// A brace always acts first: `{` pushes an empty frame, `}` pops the
/// innermost one (saturating on an empty stack), and either forces the
/// state back to `Idle`, abandoning any pending token.  A completed single
/// token is looked up innermost-frame-first and reported as a use when
/// bound.  Two tokens separated by whitespace form a declaration: when
/// neither is a disallowed keyword, the site is reported and the binding
/// `name -> type` enters the innermost frame; with no frame open the
/// record is still reported but there is no frame to extend.  A `.` opens
/// a member-access chain, which is never resolved or declared; the chain
/// ends, back to `Idle`, at the first character that is neither
/// alphanumeric nor another dot, so no stale token offsets survive it.
pub open spec fn id_scan_step(cfg: IdScan, text: Seq<char>, i: int) -> IdScan {
    let c = text[i];
    let cfg1 = if c == '{' {
        IdScan { st: IdSt::Idle, frames: cfg.frames.push(Seq::empty()), ..cfg }
    } else if c == '}' {
        IdScan {
            st: IdSt::Idle,
            frames: if cfg.frames.len() > 0 {
                cfg.frames.drop_last()
            } else {
                cfg.frames
            },
            ..cfg
        }
    } else {
        cfg
    };
    match cfg1.st {
        IdSt::Idle => if c == '.' {
            IdScan { st: IdSt::Dot, ..cfg1 }
        } else if alpha(c) {
            IdScan { st: IdSt::Name1, n1s: i, ..cfg1 }
        } else {
            cfg1
        },
        IdSt::Dot => if alnum(c) || c == '.' {
            cfg1
        } else {
            IdScan { st: IdSt::Idle, ..cfg1 }
        },
        IdSt::Name1 => if white(c) {
            IdScan { st: IdSt::Space, n1e: i, ..cfg1 }
        } else if !alnum(c) {
            let cfg2 = IdScan {
                st: if c == '.' {
                    IdSt::Dot
                } else {
                    IdSt::Idle
                },
                n1e: i,
                ..cfg1
            };
            id_emit_use(cfg2, text, cfg2.n1s, cfg2.n1e)
        } else {
            cfg1
        },
        IdSt::Space => if alpha(c) {
            IdScan { st: IdSt::Name2, n2s: i, ..cfg1 }
        } else if !white(c) {
            let cfg2 = IdScan { st: IdSt::Idle, ..cfg1 };
            id_emit_use(cfg2, text, cfg2.n1s, cfg2.n1e)
        } else {
            cfg1
        },
        IdSt::Name2 => if !alnum(c) {
            let cfg2 = IdScan {
                st: if c == '.' {
                    IdSt::Dot
                } else {
                    IdSt::Idle
                },
                ..cfg1
            };
            let name = id_token(text, cfg2.n2s, i);
            let typ = id_token(text, cfg2.n1s, cfg2.n1e);
            if allowed(name) && allowed(typ) {
                let cfg3 = IdScan {
                    out: cfg2.out.push(
                        IdentView { name: name, typ: typ, start: cfg2.n2s, end: i },
                    ),
                    ..cfg2
                };
                if cfg3.frames.len() > 0 {
                    IdScan {
                        frames: cfg3.frames.update(
                            cfg3.frames.len() - 1,
                            cfg3.frames.last().push((name, typ)),
                        ),
                        ..cfg3
                    }
                } else {
                    cfg3
                }
            } else {
                cfg2
            }
        } else {
            cfg1
        },
    }
}

/// The identifier scanner run over the first `n` characters of `text`,
/// starting with one open frame.
pub open spec fn id_scan(text: Seq<char>, n: int) -> IdScan
    decreases n,
{
    if n <= 0 {
        IdScan {
            st: IdSt::Idle,
            n1s: 0,
            n1e: 0,
            n2s: 0,
            frames: seq![Seq::empty()],
            out: Seq::empty(),
        }
    } else {
        id_scan_step(id_scan(text, n - 1), text, n - 1)
    }
}

/// The mathematical view of one executable frame.
pub open spec fn frame_view(f: Vec<(String, String)>) -> Seq<(Seq<char>, Seq<char>)> {
    f@.map_values(|p: (String, String)| (p.0@, p.1@))
}

/// The mathematical view of the executable frame stack.
pub open spec fn frames_view(fs: Vec<Vec<(String, String)>>) -> Seq<Seq<(Seq<char>, Seq<char>)>> {
    fs@.map_values(|f: Vec<(String, String)>| frame_view(f))
}

/// Resolves `name` against the frame stack, innermost frame first, newest
/// binding first within a frame.
#[verifier::loop_isolation(false)]
fn lookup_frames(frames: &Vec<Vec<(String, String)>>, name: &String) -> (r: Option<String>)
    ensures
        match r {
            Some(t) => stack_lookup(frames_view(*frames), name@) == Some(t@),
            None => stack_lookup(frames_view(*frames), name@) is None,
        },
{
    let ghost fv = frames_view(*frames);
    proof {
        assert(fv.subrange(0, fv.len() as int) =~= fv);
    }
    let mut fi: usize = frames.len();
    while fi > 0
        invariant
            fi <= frames@.len(),
            fv == frames_view(*frames),
            fv.len() == frames@.len(),
            stack_lookup(fv, name@) == stack_lookup(fv.subrange(0, fi as int), name@),
        decreases fi,
    {
        fi = fi - 1;
        let frame = &frames[fi];
        let ghost gfr = frame_view(*frame);
        proof {
            assert(fv[fi as int] == gfr);
        }
        proof {
            assert(gfr.subrange(0, gfr.len() as int) =~= gfr);
        }
        let mut bi: usize = frame.len();
        while bi > 0
            invariant
                bi <= frame@.len(),
                gfr == frame_view(*frame),
                gfr.len() == frame@.len(),
                frame_lookup(gfr, name@) == frame_lookup(gfr.subrange(0, bi as int), name@),
            decreases bi,
        {
            bi = bi - 1;
            if frame[bi].0 == *name {
                proof {
                    let pre = gfr.subrange(0, bi + 1);
                    assert(pre.len() == bi + 1);
                    assert(pre.last() == gfr[bi as int]);
                    assert(gfr[bi as int].0 == name@);
                    assert(frame_lookup(pre, name@) == Some(gfr[bi as int].1));
                    assert(frame_lookup(gfr, name@) == Some(gfr[bi as int].1));
                    let sv = fv.subrange(0, fi + 1);
                    assert(sv.len() == fi + 1);
                    assert(sv.last() == fv[fi as int]);
                    assert(frame_lookup(sv.last(), name@) == Some(gfr[bi as int].1));
                    assert(stack_lookup(sv, name@) == Some(gfr[bi as int].1));
                    assert(stack_lookup(fv, name@) == Some(gfr[bi as int].1));
                }
                return Some(frame[bi].1.clone());
            }
            proof {
                let pre = gfr.subrange(0, bi + 1);
                assert(pre.last() == gfr[bi as int]);
                assert(gfr[bi as int].0 != name@);
                assert(pre.drop_last() =~= gfr.subrange(0, bi as int));
            }
        }
        proof {
            assert(gfr.subrange(0, 0) =~= Seq::<(Seq<char>, Seq<char>)>::empty());
            assert(frame_lookup(gfr, name@) is None);
            let sv = fv.subrange(0, fi + 1);
            assert(sv.len() == fi + 1);
            assert(sv.last() == fv[fi as int]);
            assert(frame_lookup(sv.last(), name@) is None);
            assert(sv.drop_last() =~= fv.subrange(0, fi as int));
            assert(stack_lookup(sv, name@) == stack_lookup(fv.subrange(0, fi as int), name@));
        }
    }
    proof {
        assert(fv.subrange(0, 0) =~= Seq::<Seq<(Seq<char>, Seq<char>)>>::empty());
    }
    None
}

/// The executable scanner configuration corresponds to the specification
/// configuration.
spec fn id_cfg_matches(
    st: IdSt,
    n1s: usize,
    n1e: usize,
    n2s: usize,
    frames: Vec<Vec<(String, String)>>,
    out: Seq<Identifier>,
    cfg: IdScan,
) -> bool {
    &&& st == cfg.st
    &&& n1s as int == cfg.n1s
    &&& n1e as int == cfg.n1e
    &&& n2s as int == cfg.n2s
    &&& frames_view(frames) == cfg.frames
    &&& out.len() == cfg.out.len()
    &&& forall|k: int|
        0 <= k < out.len() ==> {
            let e = #[trigger] out[k];
            let v = cfg.out[k];
            e.name@ == v.name && e.typ@ == v.typ && e.start as int == v.start && e.end as int
                == v.end
        }
}

impl Clike {
    /// Scans `text` once and returns, in source order, one record per
    /// identifier use resolved against the scope stack and one per
    /// accepted two-token declaration, with the offsets of the reported
    /// token.  Bindings never leak out of a closed block, and an inner
    /// redeclaration shadows the outer one until its block closes.
    #[verifier::loop_isolation(false)]
    #[verifier::rlimit(100)]
    pub fn read_identifiers(&self, text: &str) -> (r: Vec<Identifier>)
        ensures
            r@.len() == id_scan(text@, text@.len() as int).out.len(),
            forall|k: int|
                0 <= k < r@.len() ==> {
                    let e = #[trigger] r@[k];
                    let v = id_scan(text@, text@.len() as int).out[k];
                    e.name@ == v.name && e.typ@ == v.typ && e.start as int == v.start && e.end as int
                        == v.end
                },
    {
        let n = text.unicode_len();
        let mut st = IdSt::Idle;
        let mut n1s: usize = 0;
        let mut n1e: usize = 0;
        let mut n2s: usize = 0;
        let mut frames: Vec<Vec<(String, String)>> = Vec::new();
        frames.push(Vec::new());
        let mut out: Vec<Identifier> = Vec::new();
        proof {
            assert(frames_view(frames) =~= id_scan(text@, 0).frames) by {
                assert(frame_view(frames@[0]) =~= Seq::<(Seq<char>, Seq<char>)>::empty());
            }
        }
        let mut i: usize = 0;
        while i < n
            invariant
                n == text@.len(),
                i <= n,
                id_cfg_matches(st, n1s, n1e, n2s, frames, out@, id_scan(text@, i as int)),
                n1s <= n,
                n1e <= n,
                n2s <= n,
            decreases n - i,
        {
            let c = text.get_char(i);
            let ghost cfg = id_scan(text@, i as int);
            proof {
                assert(id_scan(text@, i + 1) == id_scan_step(cfg, text@, i as int));
            }
            if c == '{' {
                frames.push(Vec::new());
                st = IdSt::Idle;
                proof {
                    assert(frames_view(frames) =~= cfg.frames.push(Seq::empty())) by {
                        assert(frame_view(frames@[frames@.len() - 1]) =~= Seq::<
                            (Seq<char>, Seq<char>),
                        >::empty());
                    }
                }
            } else if c == '}' {
                if frames.len() > 0 {
                    let dropped = frames.pop();
                    proof {
                        assert(frames_view(frames) =~= cfg.frames.drop_last());
                    }
                }
                st = IdSt::Idle;
            }
            match st {
                IdSt::Idle => {
                    if c == '.' {
                        st = IdSt::Dot;
                    } else if c.is_alphabetic() {
                        st = IdSt::Name1;
                        n1s = i;
                    }
                },
                IdSt::Dot => {
                    if !(c.is_alphanumeric() || c == '.') {
                        st = IdSt::Idle;
                    }
                },
                IdSt::Name1 => {
                    if c.is_whitespace() {
                        st = IdSt::Space;
                        n1e = i;
                    } else if !c.is_alphanumeric() {
                        if c == '.' {
                            st = IdSt::Dot;
                        } else {
                            st = IdSt::Idle;
                        }
                        n1e = i;
                        let name = token_of(text, n1s, n1e);
                        match lookup_frames(&frames, &name) {
                            Some(typ) => {
                                out.push(Identifier::new(name, typ, n1s, n1e));
                            },
                            None => {},
                        }
                    }
                },
                IdSt::Space => {
                    if c.is_alphabetic() {
                        st = IdSt::Name2;
                        n2s = i;
                    } else if !c.is_whitespace() {
                        st = IdSt::Idle;
                        let name = token_of(text, n1s, n1e);
                        match lookup_frames(&frames, &name) {
                            Some(typ) => {
                                out.push(Identifier::new(name, typ, n1s, n1e));
                            },
                            None => {},
                        }
                    }
                },
                IdSt::Name2 => {
                    if !c.is_alphanumeric() {
                        if c == '.' {
                            st = IdSt::Dot;
                        } else {
                            st = IdSt::Idle;
                        }
                        let name = token_of(text, n2s, i);
                        let typ = token_of(text, n1s, n1e);
                        if Clike::is_allowed(name.as_str()) && Clike::is_allowed(typ.as_str()) {
                            out.push(
                                Identifier::new(name.clone(), typ.clone(), n2s, i),
                            );
                            if frames.len() > 0 {
                                let ghost fv_pre = frames_view(frames);
                                let mut f = frames.pop().unwrap();
                                f.push((name, typ));
                                frames.push(f);
                                proof {
                                    assert(frames_view(frames) =~= fv_pre.update(
                                        fv_pre.len() - 1,
                                        fv_pre.last().push(
                                            (
                                                id_token(text@, n2s as int, i as int),
                                                id_token(text@, n1s as int, n1e as int),
                                            ),
                                        ),
                                    )) by {
                                        assert(frame_view(frames@[frames@.len() - 1])
                                            =~= fv_pre.last().push(
                                            (
                                                id_token(text@, n2s as int, i as int),
                                                id_token(text@, n1s as int, n1e as int),
                                            ),
                                        ));
                                    }
                                }
                            }
                        }
                    }
                },
            }
            i = i + 1;
        }
        out
    }
}

/// The characters between two offsets, as an owned string; empty when the
/// offsets do not form a range inside the text.
fn token_of(text: &str, a: usize, b: usize) -> (r: String)
    ensures
        r@ == id_token(text@, a as int, b as int),
{
    let n = text.unicode_len();
    if a <= b && b <= n {
        text.substring_char(a, b).to_owned()
    } else {
        String::new()
    }
}

} // verus!
