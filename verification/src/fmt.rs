//! Textual rendering of call stacks for the folded-stack report format.
//!
//! Each frame renders as `filename:line (function)`; a stack joins its
//! frames outer-to-inner with a separator. In the annotated variant a
//! frame carries its source text, with semicolons and spaces escaped to
//! placeholder characters (the renderer treats semicolon as the frame
//! separator and trims spaces) for reversal in post-processing.

use vstd::prelude::*;
use vstd::string::StringExecFns;
use crate::callsite::{CallSiteId, FunctionId, FunctionLocations};
use crate::callstack::Callstack;

verus! {

/// Relies on str's PartialEq: equality of the character sequences.
#[verifier::external_body]
fn str_equal(a: &str, b: &str) -> (r: bool)
    ensures
        r == (a@ == b@),
{
    a == b
}

/// Relies on str::chars: the characters of the string, in order.
#[verifier::external_body]
fn chars_of(s: &str) -> (r: Vec<char>)
    ensures
        r@ == s@,
{
    s.chars().collect()
}

/// Relies on String's FromIterator over char: the collected characters,
/// in order.
#[verifier::external_body]
fn string_from_chars(v: &Vec<char>) -> (r: String)
    ensures
        r@ == v@,
{
    v.iter().collect()
}

pub open spec fn digit_char(d: int) -> char {
    if d == 0 { '0' }
    else if d == 1 { '1' }
    else if d == 2 { '2' }
    else if d == 3 { '3' }
    else if d == 4 { '4' }
    else if d == 5 { '5' }
    else if d == 6 { '6' }
    else if d == 7 { '7' }
    else if d == 8 { '8' }
    else { '9' }
}

/// The decimal rendering of a nonnegative number.
pub open spec fn spec_dec(n: int) -> Seq<char>
    decreases n,
{
    if n < 10 {
        seq![digit_char(n)]
    } else {
        spec_dec(n / 10).push(digit_char(n % 10))
    }
}

fn digit_str(d: usize) -> (r: &'static str)
    requires
        d < 10,
    ensures
        r@ == seq![digit_char(d as int)],
{
    if d == 0 { proof { reveal_strlit("0"); } assert("0"@ =~= seq![digit_char(0)]); "0" }
    else if d == 1 { proof { reveal_strlit("1"); } assert("1"@ =~= seq![digit_char(1)]); "1" }
    else if d == 2 { proof { reveal_strlit("2"); } assert("2"@ =~= seq![digit_char(2)]); "2" }
    else if d == 3 { proof { reveal_strlit("3"); } assert("3"@ =~= seq![digit_char(3)]); "3" }
    else if d == 4 { proof { reveal_strlit("4"); } assert("4"@ =~= seq![digit_char(4)]); "4" }
    else if d == 5 { proof { reveal_strlit("5"); } assert("5"@ =~= seq![digit_char(5)]); "5" }
    else if d == 6 { proof { reveal_strlit("6"); } assert("6"@ =~= seq![digit_char(6)]); "6" }
    else if d == 7 { proof { reveal_strlit("7"); } assert("7"@ =~= seq![digit_char(7)]); "7" }
    else if d == 8 { proof { reveal_strlit("8"); } assert("8"@ =~= seq![digit_char(8)]); "8" }
    else { proof { reveal_strlit("9"); } assert("9"@ =~= seq![digit_char(9)]); "9" }
}

/// Render a number in decimal.
pub fn usize_to_string(n: usize) -> (r: String)
    ensures
        r@ == spec_dec(n as int),
    decreases n,
{
    if n < 10 {
        String::from_str(digit_str(n))
    } else {
        let mut s = usize_to_string(n / 10);
        s.append(digit_str(n % 10));
        proof {
            assert(s@ =~= spec_dec(n as int / 10).push(digit_char(n as int % 10)));
        }
        s
    }
}

/// The function name an identifier resolves to (the placeholder for the
/// reserved sentinel).
pub open spec fn resolved_function(funcs: FunctionLocations, f: FunctionId) -> Seq<char> {
    if f.0 == u32::MAX {
        "UNKNOWN"@
    } else {
        funcs.functions@[f.0 as int].function_name@
    }
}

/// The filename an identifier resolves to.
pub open spec fn resolved_filename(funcs: FunctionLocations, f: FunctionId) -> Seq<char> {
    if f.0 == u32::MAX {
        "UNKNOWN DUE TO BUG"@
    } else {
        funcs.functions@[f.0 as int].filename@
    }
}

/// Whether a frame's function identifier can be resolved.
pub open spec fn frame_ok(funcs: FunctionLocations, c: CallSiteId) -> bool {
    c.function.0 == u32::MAX || c.function.0 < funcs.functions@.len()
}

pub open spec fn frames_ok(funcs: FunctionLocations, frames: Seq<CallSiteId>) -> bool {
    forall|i: int| 0 <= i < frames.len() ==> frame_ok(funcs, #[trigger] frames[i])
}

/// The text of one frame: `filename:line (function)`.
pub open spec fn spec_frame(funcs: FunctionLocations, c: CallSiteId) -> Seq<char> {
    resolved_filename(funcs, c.function) + ":"@ + spec_dec(c.line_number as int) + " ("@
        + resolved_function(funcs, c.function) + ")"@
}

/// Render one frame.
pub fn frame_string(functions: &FunctionLocations, c: CallSiteId) -> (r: String)
    requires
        frame_ok(*functions, c),
    ensures
        r@ == spec_frame(*functions, c),
{
    let (function, filename) = functions.get_function_and_filename(c.function);
    let mut s = String::from_str(filename);
    s.append(":");
    let line = usize_to_string(c.line_number as usize);
    s.append(line.as_str());
    s.append(" (");
    s.append(function);
    s.append(")");
    proof {
        assert(s@ =~= spec_frame(*functions, c));
    }
    s
}

/// Frames joined with a separator, outer-to-inner.
pub open spec fn spec_joined(
    funcs: FunctionLocations,
    frames: Seq<CallSiteId>,
    sep: Seq<char>,
) -> Seq<char>
    decreases frames.len(),
{
    if frames.len() == 0 {
        Seq::empty()
    } else if frames.len() == 1 {
        spec_frame(funcs, frames[0])
    } else {
        spec_frame(funcs, frames[0]) + sep + spec_joined(funcs, frames.drop_first(), sep)
    }
}

proof fn lemma_joined_push(
    funcs: FunctionLocations,
    frames: Seq<CallSiteId>,
    sep: Seq<char>,
    x: CallSiteId,
)
    ensures
        frames.len() == 0 ==> spec_joined(funcs, frames.push(x), sep) == spec_frame(funcs, x),
        frames.len() > 0 ==> spec_joined(funcs, frames.push(x), sep) == spec_joined(
            funcs,
            frames,
            sep,
        ) + sep + spec_frame(funcs, x),
    decreases frames.len(),
{
    let p = frames.push(x);
    if frames.len() == 0 {
        assert(p.len() == 1);
        assert(p[0] == x);
    } else {
        assert(p.drop_first() =~= frames.drop_first().push(x));
        lemma_joined_push(funcs, frames.drop_first(), sep, x);
        if frames.len() == 1 {
            assert(p[0] == frames[0]);
            assert(spec_joined(funcs, p, sep) == spec_frame(funcs, p[0]) + sep + spec_joined(
                funcs,
                p.drop_first(),
                sep,
            ));
            assert(spec_joined(funcs, p.drop_first(), sep) == spec_frame(funcs, x));
        } else {
            assert(p[0] == frames[0]);
            assert(spec_joined(funcs, frames, sep) + sep + spec_frame(funcs, x) =~= spec_frame(
                funcs,
                frames[0],
            ) + sep + (spec_joined(funcs, frames.drop_first(), sep) + sep + spec_frame(funcs, x)));
        }
    }
}

/// Render a frame sequence joined with a separator.
pub fn joined_string(functions: &FunctionLocations, frames: &Vec<CallSiteId>, start: usize, separator: &str) -> (r: String)
    requires
        frames_ok(*functions, frames@),
        start <= frames@.len(),
    ensures
        r@ == spec_joined(*functions, frames@.skip(start as int), separator@),
{
    let mut s = String::new();
    let n = frames.len();
    let ghost rest = frames@.skip(start as int);
    let mut i = start;
    while i < n
        invariant
            start <= i <= n,
            n == frames@.len(),
            rest == frames@.skip(start as int),
            frames_ok(*functions, frames@),
            s@ == spec_joined(*functions, frames@.skip(start as int).take(i - start), separator@),
        decreases n - i,
    {
        let ghost done = frames@.skip(start as int).take(i - start);
        proof {
            assert(frames@.skip(start as int).take(i + 1 - start) =~= done.push(
                frames@[i as int],
            ));
            lemma_joined_push(*functions, done, separator@, frames@[i as int]);
            assert(frame_ok(*functions, frames@[i as int]));
        }
        if i > start {
            s.append(separator);
        }
        let f = frame_string(functions, frames[i]);
        s.append(f.as_str());
        i = i + 1;
        proof {
            assert(s@ =~= spec_joined(
                *functions,
                frames@.skip(start as int).take(i - start),
                separator@,
            ));
        }
    }
    proof {
        assert(frames@.skip(start as int).take(n - start) =~= frames@.skip(start as int));
    }
    s
}

/// Escaping for annotated source text: the renderer treats semicolon as
/// the frame separator and trims spaces, so both are mapped to placeholder
/// characters and restored in post-processing.
pub open spec fn esc_char(c: char) -> char {
    if c == ' ' {
        '\u{12e4}'
    } else if c == ';' {
        '\u{ff1b}'
    } else {
        c
    }
}

pub open spec fn is_trailing_ws(c: char) -> bool {
    c == ' ' || c == '\t' || c == '\n' || c == '\r'
}

/// The sequence with trailing whitespace removed.
pub open spec fn spec_trim_end(s: Seq<char>) -> Seq<char>
    decreases s.len(),
{
    if s.len() > 0 && is_trailing_ws(s.last()) {
        spec_trim_end(s.drop_last())
    } else {
        s
    }
}

proof fn lemma_trim_end_at(s: Seq<char>, e: int)
    requires
        0 <= e <= s.len(),
        forall|j: int| e <= j < s.len() ==> is_trailing_ws(#[trigger] s[j]),
        e > 0 ==> !is_trailing_ws(s[e - 1]),
    ensures
        spec_trim_end(s) == s.take(e),
    decreases s.len(),
{
    if s.len() == e {
        assert(s.take(e) =~= s);
        if e > 0 {
            assert(!is_trailing_ws(s.last()));
        }
    } else {
        assert(is_trailing_ws(s.last()));
        let d = s.drop_last();
        assert(forall|j: int| e <= j < d.len() ==> is_trailing_ws(#[trigger] d[j]));
        lemma_trim_end_at(d, e);
        assert(d.take(e) =~= s.take(e));
    }
}

fn trailing_ws_char(c: char) -> (r: bool)
    ensures
        r == is_trailing_ws(c),
{
    c == ' ' || c == '\t' || c == '\n' || c == '\r'
}

/// Escape a line of source text and drop its trailing whitespace.
pub fn escape_source_line(code: &str) -> (r: String)
    ensures
        r@ == spec_trim_end(code@.map_values(|c: char| esc_char(c))),
{
    let v = chars_of(code);
    let mut escaped: Vec<char> = Vec::new();
    let n = v.len();
    for i in 0..n
        invariant
            n == v@.len(),
            v@ == code@,
            escaped@.len() == i,
            forall|j: int| 0 <= j < i ==> #[trigger] escaped@[j] == esc_char(v@[j]),
    {
        let c = v[i];
        let e: char = if c == ' ' {
            '\u{12e4}'
        } else if c == ';' {
            '\u{ff1b}'
        } else {
            c
        };
        escaped.push(e);
    }
    let ghost esc_full = code@.map_values(|c: char| esc_char(c));
    proof {
        assert(escaped@ =~= esc_full);
    }
    let mut end = escaped.len();
    while end > 0 && trailing_ws_char(escaped[end - 1])
        invariant
            end <= escaped@.len(),
            escaped@ == esc_full,
            forall|j: int| end <= j < escaped@.len() ==> is_trailing_ws(#[trigger] escaped@[j]),
        decreases end,
    {
        end = end - 1;
    }
    escaped.truncate(end);
    proof {
        lemma_trim_end_at(esc_full, end as int);
    }
    string_from_chars(&escaped)
}

/// One annotated frame: the frame text, then a separator-escaped copy of
/// its source line behind a non-trimmable marker character.
pub open spec fn spec_frame_annotated(
    funcs: FunctionLocations,
    c: CallSiteId,
    code: Seq<char>,
) -> Seq<char> {
    spec_frame(funcs, c) + ";"@ + seq!['\u{2800}'] + spec_trim_end(
        code.map_values(|ch: char| esc_char(ch)),
    )
}

/// Render one annotated frame.
pub fn frame_string_annotated(functions: &FunctionLocations, c: CallSiteId, code: &str) -> (r:
    String)
    requires
        frame_ok(*functions, c),
    ensures
        r@ == spec_frame_annotated(*functions, c, code@),
{
    let mut s = frame_string(functions, c);
    s.append(";\u{2800}");
    let esc = escape_source_line(code);
    s.append(esc.as_str());
    proof {
        reveal_strlit(";\u{2800}");
        assert(";\u{2800}"@ =~= ";"@ + seq!['\u{2800}']) by {
            reveal_strlit(";");
        }
        assert(s@ =~= spec_frame_annotated(*functions, c, code@));
    }
    s
}

/// How far `frames[i]` and everything before it resolve to the bootstrap
/// file: the index of the first frame that does not.
pub open spec fn runpy_run(
    funcs: FunctionLocations,
    frames: Seq<CallSiteId>,
    runpy: Seq<char>,
    i: int,
) -> int
    decreases frames.len() - i,
{
    if i < 0 || i >= frames.len() {
        i
    } else if resolved_filename(funcs, frames[i].function) == runpy {
        runpy_run(funcs, frames, runpy, i + 1)
    } else {
        i
    }
}

/// How many leading frames to trim as interpreter bootstrap: the run of
/// frames resolving to the bootstrap file — unless every frame does, in
/// which case nothing is trimmed.
pub open spec fn spec_runpy_prefix(
    funcs: FunctionLocations,
    frames: Seq<CallSiteId>,
    runpy: Seq<char>,
) -> int {
    let r = runpy_run(funcs, frames, runpy, 0);
    if r == frames.len() {
        0
    } else {
        r
    }
}

/// Count the leading frames that point at the interpreter's bootstrap
/// file (zero when every frame does).
pub fn runpy_prefix_length(
    calls: &Vec<CallSiteId>,
    functions: &FunctionLocations,
    runpy_path: &str,
) -> (r: usize)
    requires
        frames_ok(*functions, calls@),
    ensures
        r == spec_runpy_prefix(*functions, calls@, runpy_path@),
        r <= calls@.len(),
{
    let n = calls.len();
    let mut i: usize = 0;
    let mut stopped: bool = false;
    while i < n && !stopped
        invariant
            i <= n,
            n == calls@.len(),
            frames_ok(*functions, calls@),
            !stopped ==> runpy_run(*functions, calls@, runpy_path@, 0) == runpy_run(
                *functions,
                calls@,
                runpy_path@,
                i as int,
            ),
            stopped ==> runpy_run(*functions, calls@, runpy_path@, 0) == i && i < n,
        decreases n - i, (if stopped { 0int } else { 1int }),
    {
        let (_function, filename) = functions.get_function_and_filename(calls[i].function);
        if str_equal(filename, runpy_path) {
            proof {
                assert(resolved_filename(*functions, calls@[i as int].function) == runpy_path@);
            }
            i = i + 1;
        } else {
            proof {
                assert(resolved_filename(*functions, calls@[i as int].function) != runpy_path@);
                assert(runpy_run(*functions, calls@, runpy_path@, i as int) == i);
            }
            stopped = true;
        }
    }
    if stopped {
        i
    } else {
        proof {
            assert(runpy_run(*functions, calls@, runpy_path@, 0) == n);
        }
        0
    }
}

/// The folded-stack text of a frame sequence: the frames past the
/// bootstrap prefix, joined with the separator; an empty stack renders as
/// a fixed placeholder.
pub open spec fn spec_stack_string(
    funcs: FunctionLocations,
    frames: Seq<CallSiteId>,
    sep: Seq<char>,
    runpy: Seq<char>,
) -> Seq<char> {
    if frames.len() == 0 {
        "[No Python stack]"@
    } else {
        spec_joined(funcs, frames.skip(spec_runpy_prefix(funcs, frames, runpy)), sep)
    }
}

/// One folded-stack report line: the stack text, a space, the byte count.
pub open spec fn spec_line(
    funcs: FunctionLocations,
    frames: Seq<CallSiteId>,
    bytes: int,
    runpy: Seq<char>,
) -> Seq<char> {
    spec_stack_string(funcs, frames, ";"@, runpy) + " "@ + spec_dec(bytes)
}

/// Render the folded-stack text of a frame vector.
pub fn stack_string(
    frames: &Vec<CallSiteId>,
    functions: &FunctionLocations,
    separator: &str,
    runpy_path: &str,
) -> (r: String)
    requires
        frames_ok(*functions, frames@),
    ensures
        r@ == spec_stack_string(*functions, frames@, separator@, runpy_path@),
{
    if frames.len() == 0 {
        return String::from_str("[No Python stack]");
    }
    let skip = runpy_prefix_length(frames, functions, runpy_path);
    joined_string(functions, frames, skip, separator)
}

/// Annotated frames joined with a separator, outer-to-inner.
pub open spec fn spec_joined_annotated(
    funcs: FunctionLocations,
    frames: Seq<CallSiteId>,
    codes: Seq<Seq<char>>,
    sep: Seq<char>,
) -> Seq<char>
    decreases frames.len(),
{
    if frames.len() == 0 {
        Seq::empty()
    } else if frames.len() == 1 {
        spec_frame_annotated(funcs, frames[0], codes[0])
    } else {
        spec_frame_annotated(funcs, frames[0], codes[0]) + sep + spec_joined_annotated(
            funcs,
            frames.drop_first(),
            codes.drop_first(),
            sep,
        )
    }
}

proof fn lemma_joined_annotated_push(
    funcs: FunctionLocations,
    frames: Seq<CallSiteId>,
    codes: Seq<Seq<char>>,
    sep: Seq<char>,
    x: CallSiteId,
    c: Seq<char>,
)
    requires
        frames.len() == codes.len(),
    ensures
        frames.len() == 0 ==> spec_joined_annotated(funcs, frames.push(x), codes.push(c), sep)
            == spec_frame_annotated(funcs, x, c),
        frames.len() > 0 ==> spec_joined_annotated(funcs, frames.push(x), codes.push(c), sep)
            == spec_joined_annotated(funcs, frames, codes, sep) + sep + spec_frame_annotated(
            funcs,
            x,
            c,
        ),
    decreases frames.len(),
{
    let p = frames.push(x);
    let q = codes.push(c);
    if frames.len() == 0 {
        assert(p[0] == x && q[0] == c);
    } else {
        assert(p.drop_first() =~= frames.drop_first().push(x));
        assert(q.drop_first() =~= codes.drop_first().push(c));
        lemma_joined_annotated_push(funcs, frames.drop_first(), codes.drop_first(), sep, x, c);
        if frames.len() == 1 {
            assert(p[0] == frames[0] && q[0] == codes[0]);
        } else {
            assert(p[0] == frames[0] && q[0] == codes[0]);
            assert(spec_joined_annotated(funcs, frames, codes, sep) + sep + spec_frame_annotated(
                funcs,
                x,
                c,
            ) =~= spec_frame_annotated(funcs, frames[0], codes[0]) + sep + (spec_joined_annotated(
                funcs,
                frames.drop_first(),
                codes.drop_first(),
                sep,
            ) + sep + spec_frame_annotated(funcs, x, c)));
        }
    }
}

/// The annotated folded-stack text: the frames past the bootstrap prefix,
/// each with its line of source text, joined with the separator.
pub open spec fn spec_stack_string_annotated(
    funcs: FunctionLocations,
    frames: Seq<CallSiteId>,
    codes: Seq<Seq<char>>,
    sep: Seq<char>,
    runpy: Seq<char>,
) -> Seq<char> {
    if frames.len() == 0 {
        "[No Python stack]"@
    } else {
        spec_joined_annotated(
            funcs,
            frames.skip(spec_runpy_prefix(funcs, frames, runpy)),
            codes,
            sep,
        )
    }
}

/// Render the annotated folded-stack text of a frame vector; `codes[k]`
/// is the source text for the frame `runpy_prefix_length(..)` + `k`.
pub fn stack_string_annotated(
    frames: &Vec<CallSiteId>,
    functions: &FunctionLocations,
    separator: &str,
    runpy_path: &str,
    codes: &Vec<String>,
) -> (r: String)
    requires
        frames_ok(*functions, frames@),
        codes@.len() == frames@.len() - spec_runpy_prefix(*functions, frames@, runpy_path@),
    ensures
        r@ == spec_stack_string_annotated(
            *functions,
            frames@,
            codes@.map_values(|s: String| s@),
            separator@,
            runpy_path@,
        ),
{
    if frames.len() == 0 {
        return String::from_str("[No Python stack]");
    }
    let start = runpy_prefix_length(frames, functions, runpy_path);
    let ghost rest = frames@.skip(start as int);
    let ghost cds = codes@.map_values(|s: String| s@);
    let mut s = String::new();
    let n = frames.len();
    let mut i = start;
    while i < n
        invariant
            start <= i <= n,
            n == frames@.len(),
            rest == frames@.skip(start as int),
            cds == codes@.map_values(|s2: String| s2@),
            codes@.len() == n - start,
            frames_ok(*functions, frames@),
            s@ == spec_joined_annotated(
                *functions,
                frames@.skip(start as int).take(i - start),
                cds.take(i - start),
                separator@,
            ),
        decreases n - i,
    {
        let ghost done = frames@.skip(start as int).take(i - start);
        let ghost donec = cds.take(i - start);
        proof {
            assert(frames@.skip(start as int).take(i + 1 - start) =~= done.push(
                frames@[i as int],
            ));
            assert(cds.take(i + 1 - start) =~= donec.push(cds[i - start]));
            lemma_joined_annotated_push(
                *functions,
                done,
                donec,
                separator@,
                frames@[i as int],
                cds[i - start],
            );
            assert(frame_ok(*functions, frames@[i as int]));
        }
        if i > start {
            s.append(separator);
        }
        let f = frame_string_annotated(functions, frames[i], codes[i - start].as_str());
        s.append(f.as_str());
        i = i + 1;
        proof {
            assert(cds[i - 1 - start] == codes@[i - 1 - start]@);
            assert(s@ =~= spec_joined_annotated(
                *functions,
                frames@.skip(start as int).take(i - start),
                cds.take(i - start),
                separator@,
            ));
        }
    }
    proof {
        assert(frames@.skip(start as int).take(n - start) =~= frames@.skip(start as int));
        assert(cds.take(n - start) =~= cds);
    }
    s
}

/// One annotated report line: the annotated stack text, a space, the
/// byte count.
pub fn line_string_annotated(
    frames: &Vec<CallSiteId>,
    functions: &FunctionLocations,
    runpy_path: &str,
    codes: &Vec<String>,
    bytes: usize,
) -> (r: String)
    requires
        frames_ok(*functions, frames@),
        codes@.len() == frames@.len() - spec_runpy_prefix(*functions, frames@, runpy_path@),
    ensures
        r@ == spec_stack_string_annotated(
            *functions,
            frames@,
            codes@.map_values(|s: String| s@),
            ";"@,
            runpy_path@,
        ) + " "@ + spec_dec(bytes as int),
{
    let mut s = stack_string_annotated(frames, functions, ";", runpy_path, codes);
    s.append(" ");
    let count = usize_to_string(bytes);
    s.append(count.as_str());
    s
}

impl Callstack {
    /// The human-readable rendering of this stack, one frame per separator
    /// field, interpreter bootstrap frames trimmed from the front.
    pub fn as_string(
        &self,
        functions: &FunctionLocations,
        separator: &str,
        runpy_path: &str,
    ) -> (r: String)
        requires
            frames_ok(*functions, self.calls@),
        ensures
            r@ == spec_stack_string(*functions, self.calls@, separator@, runpy_path@),
    {
        stack_string(&self.calls, functions, separator, runpy_path)
    }
}

} // verus!

