//! Extracting commands from history blocks.
//!
//! Each provider's block grammar yields a command text and an optional
//! timestamp; the command text is split on `&&` and `|` into segments, and
//! each segment becomes one `Command`: whitespace-separated tokens, a
//! leading `sudo` dropped, and the executable the first token that is
//! neither an assignment (`=`) nor a brace-expansion artifact (`{`).

use vstd::prelude::*;

use crate::history::HistoryProvider;
use crate::text::{
    all_digits, dec_value, find_byte, is_digit, is_ws, is_ws_byte, is_digit_byte, parse_u64,
    spec_trim, subrange_vec, trim_vec,
};
use crate::time::{TimeInfo, local_time_of_epoch, epoch_of_local_fields, spec_days_in_month};
use crate::HistoryError;

verus! {

/// Index of the first whitespace byte, or the length if there is none.
pub open spec fn first_ws(s: Seq<u8>) -> int
    decreases s.len(),
{
    if s.len() == 0 {
        0
    } else if is_ws(s[0]) {
        0
    } else {
        1 + first_ws(s.drop_first())
    }
}

proof fn lemma_first_ws_at(s: Seq<u8>, k: int)
    requires
        0 <= k <= s.len(),
        forall|m: int| 0 <= m < k ==> !is_ws(#[trigger] s[m]),
        k == s.len() || is_ws(s[k]),
    ensures
        first_ws(s) == k,
    decreases k,
{
    if k > 0 {
        lemma_first_ws_at(s.drop_first(), k - 1);
    }
}

proof fn lemma_first_ws_bounds(s: Seq<u8>)
    ensures
        0 <= first_ws(s) <= s.len(),
        s.len() > 0 && !is_ws(s[0]) ==> first_ws(s) >= 1,
        forall|m: int| 0 <= m < first_ws(s) ==> !is_ws(#[trigger] s[m]),
        first_ws(s) < s.len() ==> is_ws(s[first_ws(s)]),
    decreases s.len(),
{
    if s.len() > 0 && !is_ws(s[0]) {
        lemma_first_ws_bounds(s.drop_first());
        assert forall|m: int| 0 <= m < first_ws(s) implies !is_ws(#[trigger] s[m]) by {
            if m > 0 {
                assert(s[m] == s.drop_first()[m - 1]);
            }
        }
    }
}

/// The whitespace-separated tokens of a byte string, in order, without
/// empties.
pub open spec fn spec_tokens(s: Seq<u8>) -> Seq<Seq<u8>>
    decreases s.len(),
    via spec_tokens_decreases
{
    if s.len() == 0 {
        Seq::empty()
    } else if is_ws(s[0]) {
        spec_tokens(s.drop_first())
    } else {
        let k = first_ws(s);
        seq![s.subrange(0, k)] + spec_tokens(s.subrange(k, s.len() as int))
    }
}

#[via_fn]
proof fn spec_tokens_decreases(s: Seq<u8>) {
    lemma_first_ws_bounds(s);
}

/// Splits a byte string into whitespace-separated tokens.
pub fn tokens_of(s: &[u8]) -> (r: Vec<Vec<u8>>)
    ensures
        r.deep_view() == spec_tokens(s@),
{
    let n = s.len();
    let mut toks: Vec<Vec<u8>> = Vec::new();
    let mut i: usize = 0;
    proof {
        assert(s@.subrange(0, n as int) =~= s@);
        assert(toks.deep_view() =~= Seq::<Seq<u8>>::empty());
    }
    while i < n
        invariant
            i <= n,
            n == s@.len(),
            toks.deep_view() + spec_tokens(s@.subrange(i as int, n as int)) == spec_tokens(s@),
        decreases n - i,
    {
        let ghost rest = s@.subrange(i as int, n as int);
        if is_ws_byte(s[i]) {
            proof {
                assert(rest.drop_first() =~= s@.subrange(i + 1, n as int));
            }
            i = i + 1;
        } else {
            let mut j: usize = i + 1;
            while j < n && !is_ws_byte(s[j])
                invariant
                    i < j <= n,
                    n == s@.len(),
                    forall|m: int| i <= m < j ==> !is_ws(#[trigger] s@[m]),
                decreases n - j,
            {
                j = j + 1;
            }
            proof {
                assert(forall|m: int| 0 <= m < j - i ==> !is_ws(#[trigger] rest[m]));
                if j < n {
                    assert(is_ws(rest[j - i]));
                }
                lemma_first_ws_at(rest, j - i);
                assert(rest.subrange(0, j - i) =~= s@.subrange(i as int, j as int));
                assert(rest.subrange(j - i, rest.len() as int) =~= s@.subrange(
                    j as int,
                    n as int,
                ));
            }
            let tok = subrange_vec(s, i, j);
            let ghost pre = toks.deep_view();
            let ghost tv = tok@;
            toks.push(tok);
            proof {
                assert(toks.deep_view() =~~= pre.push(tv));
                assert(pre.push(tv) + spec_tokens(s@.subrange(j as int, n as int)) =~= pre + (
                seq![tv] + spec_tokens(s@.subrange(j as int, n as int))));
            }
            i = j;
        }
    }
    proof {
        assert(s@.subrange(n as int, n as int) =~= Seq::<u8>::empty());
        assert(toks.deep_view() + Seq::<Seq<u8>>::empty() =~= toks.deep_view());
    }
    toks
}

/// A command boundary sits at `i`: a pipe, or a double ampersand.
pub open spec fn is_bound_at(s: Seq<u8>, i: int) -> bool {
    s[i] == 124 || (s[i] == 38 && i + 1 < s.len() && s[i + 1] == 38)
}

/// Bytes the boundary at `i` takes up.
pub open spec fn bound_width(s: Seq<u8>, i: int) -> int {
    if s[i] == 124 {
        1
    } else {
        2
    }
}

/// Index of the first command boundary, or the length if there is none.
pub open spec fn first_bound(s: Seq<u8>) -> int
    decreases s.len(),
{
    if s.len() == 0 {
        0
    } else if is_bound_at(s, 0) {
        0
    } else {
        1 + first_bound(s.drop_first())
    }
}

proof fn lemma_first_bound_bounds(s: Seq<u8>)
    ensures
        0 <= first_bound(s) <= s.len(),
        forall|m: int| 0 <= m < first_bound(s) ==> !is_bound_at(s, m),
        first_bound(s) < s.len() ==> is_bound_at(s, first_bound(s)),
    decreases s.len(),
{
    if s.len() > 0 && !is_bound_at(s, 0) {
        lemma_first_bound_bounds(s.drop_first());
        assert forall|m: int| 0 <= m < first_bound(s) implies !is_bound_at(s, m) by {
            if m > 0 {
                assert(!is_bound_at(s.drop_first(), m - 1));
                assert(s[m] == s.drop_first()[m - 1]);
                if m + 1 < s.len() {
                    assert(s[m + 1] == s.drop_first()[m]);
                }
            }
        }
        if first_bound(s) < s.len() {
            let k = first_bound(s);
            assert(is_bound_at(s.drop_first(), k - 1));
            assert(s[k] == s.drop_first()[k - 1]);
            if k + 1 < s.len() {
                assert(s[k + 1] == s.drop_first()[k]);
            }
        }
    }
}

proof fn lemma_first_bound_at(s: Seq<u8>, k: int)
    requires
        0 <= k <= s.len(),
        forall|m: int| 0 <= m < k ==> !is_bound_at(s, m),
        k == s.len() || is_bound_at(s, k),
    ensures
        first_bound(s) == k,
    decreases k,
{
    if k > 0 {
        assert(!is_bound_at(s, 0));
        assert forall|m: int| 0 <= m < k - 1 implies !is_bound_at(s.drop_first(), m) by {
            assert(!is_bound_at(s, m + 1));
            assert(s.drop_first()[m] == s[m + 1]);
            if m + 1 < s.drop_first().len() {
                assert(s.drop_first()[m + 1] == s[m + 2]);
            }
        }
        if k < s.len() {
            assert(s.drop_first()[k - 1] == s[k]);
            if k < s.len() - 1 {
                assert(s.drop_first()[k] == s[k + 1]);
            }
            assert(is_bound_at(s.drop_first(), k - 1));
        }
        lemma_first_bound_at(s.drop_first(), k - 1);
    }
}

/// The segments of a command text, split on every `|` and `&&`, in order,
/// empty segments included.
pub open spec fn spec_split_cmds(s: Seq<u8>) -> Seq<Seq<u8>>
    decreases s.len(),
    via spec_split_cmds_decreases
{
    let k = first_bound(s);
    if k == s.len() {
        seq![s]
    } else {
        seq![s.subrange(0, k)] + spec_split_cmds(
            s.subrange(k + bound_width(s, k), s.len() as int),
        )
    }
}

#[via_fn]
proof fn spec_split_cmds_decreases(s: Seq<u8>) {
    lemma_first_bound_bounds(s);
}

/// First command boundary at or after `from`: its index and width.
fn find_bound_from(s: &[u8], from: usize) -> (r: Option<(usize, usize)>)
    requires
        from <= s@.len(),
    ensures
        r matches Some(jw) ==> {
            &&& from <= jw.0 < s@.len()
            &&& is_bound_at(s@, jw.0 as int)
            &&& jw.1 == bound_width(s@, jw.0 as int)
            &&& jw.0 + jw.1 <= s@.len()
            &&& forall|m: int| from <= m < jw.0 ==> !is_bound_at(s@, m)
        },
        r is None ==> forall|m: int| from <= m < s@.len() ==> !is_bound_at(s@, m),
{
    let n = s.len();
    let mut j: usize = from;
    while j < n
        invariant
            from <= j <= n,
            n == s@.len(),
            forall|m: int| from <= m < j ==> !is_bound_at(s@, m),
        decreases n - j,
    {
        if s[j] == 124 {
            return Some((j, 1));
        }
        if s[j] == 38 && j + 1 < n && s[j + 1] == 38 {
            return Some((j, 2));
        }
        j = j + 1;
    }
    None
}

/// Splits a command text on every `|` and `&&`.
pub fn split_commands(s: &[u8]) -> (r: Vec<Vec<u8>>)
    ensures
        r.deep_view() == spec_split_cmds(s@),
{
    let n = s.len();
    let mut segs: Vec<Vec<u8>> = Vec::new();
    let mut i: usize = 0;
    proof {
        assert(s@.subrange(0, n as int) =~= s@);
        assert(Seq::<Seq<u8>>::empty() + spec_split_cmds(s@) =~= spec_split_cmds(s@));
    }
    loop
        invariant_except_break
            i <= n,
            n == s@.len(),
            segs.deep_view() + spec_split_cmds(s@.subrange(i as int, n as int)) == spec_split_cmds(
                s@,
            ),
        ensures
            i <= n,
            n == s@.len(),
            segs.deep_view() + spec_split_cmds(s@.subrange(i as int, n as int)) == spec_split_cmds(
                s@,
            ),
            forall|m: int| i <= m < n ==> !is_bound_at(s@, m),
        decreases n - i,
    {
        let ghost rest = s@.subrange(i as int, n as int);
        match find_bound_from(s, i) {
            Some((j, w)) => {
                proof {
                    assert forall|m: int| 0 <= m < j - i implies !is_bound_at(rest, m) by {
                        assert(rest[m] == s@[i + m]);
                        if m + 1 < rest.len() {
                            assert(rest[m + 1] == s@[i + m + 1]);
                        }
                        assert(!is_bound_at(s@, i + m));
                    }
                    assert(rest[j - i] == s@[j as int]);
                    if j - i + 1 < rest.len() {
                        assert(rest[j - i + 1] == s@[j + 1]);
                    }
                    assert(is_bound_at(rest, j - i));
                    assert(bound_width(rest, j - i) == w);
                    lemma_first_bound_at(rest, j - i);
                    assert(rest.subrange(0, j - i) =~= s@.subrange(i as int, j as int));
                    assert(rest.subrange(j - i + w, rest.len() as int) =~= s@.subrange(
                        j + w,
                        n as int,
                    ));
                }
                let seg = subrange_vec(s, i, j);
                let ghost pre = segs.deep_view();
                let ghost sv = seg@;
                segs.push(seg);
                proof {
                    assert(segs.deep_view() =~~= pre.push(sv));
                    assert(pre.push(sv) + spec_split_cmds(s@.subrange(j + w, n as int)) =~= pre + (
                    seq![sv] + spec_split_cmds(s@.subrange(j + w, n as int))));
                }
                i = j + w;
            },
            None => {
                break;
            },
        }
    }
    proof {
        let rest = s@.subrange(i as int, n as int);
        assert forall|m: int| 0 <= m < rest.len() implies !is_bound_at(rest, m) by {
            assert(rest[m] == s@[i + m]);
            if m + 1 < rest.len() {
                assert(rest[m + 1] == s@[i + m + 1]);
            }
            assert(!is_bound_at(s@, i + m));
        }
        lemma_first_bound_at(rest, rest.len() as int);
    }
    let last = subrange_vec(s, i, n);
    let ghost pre = segs.deep_view();
    let ghost lv = last@;
    segs.push(last);
    proof {
        assert(segs.deep_view() =~~= pre.push(lv));
        assert(pre.push(lv) =~= pre + seq![lv]);
    }
    segs
}

/// One parsed command invocation.
pub struct Command {
    /// The trimmed segment text the command was parsed from.
    pub command_raw: Vec<u8>,
    /// When the command was entered, where the source records it.
    pub time: Option<TimeInfo>,
    /// The executable: the first token that is neither an assignment nor
    /// a brace-expansion artifact.
    pub command: Vec<u8>,
    /// All tokens of the segment, executable included, a leading `sudo`
    /// dropped.
    pub arguments: Vec<Vec<u8>>,
}

pub ghost struct CommandView {
    pub raw: Seq<u8>,
    pub time: Option<TimeInfo>,
    pub command: Seq<u8>,
    pub arguments: Seq<Seq<u8>>,
}

impl View for Command {
    type V = CommandView;

    open spec fn view(&self) -> CommandView {
        CommandView {
            raw: self.command_raw@,
            time: self.time,
            command: self.command@,
            arguments: self.arguments.deep_view(),
        }
    }
}

impl DeepView for Command {
    type V = CommandView;

    open spec fn deep_view(&self) -> CommandView {
        self.view()
    }
}

/// A token that can serve as the executable: free of `=` and `{`.
pub open spec fn token_is_exe(t: Seq<u8>) -> bool {
    forall|i: int| 0 <= i < t.len() ==> t[i] != 61 && t[i] != 123
}

/// The first token that can serve as the executable.
pub open spec fn spec_pick_exe(toks: Seq<Seq<u8>>) -> Option<Seq<u8>>
    decreases toks.len(),
{
    if toks.len() == 0 {
        None
    } else if token_is_exe(toks[0]) {
        Some(toks[0])
    } else {
        spec_pick_exe(toks.drop_first())
    }
}

pub open spec fn sudo_bytes() -> Seq<u8> {
    seq![115u8, 117u8, 100u8, 111u8]  // "sudo"
}

/// The tokens with a leading `sudo` dropped.
pub open spec fn spec_strip_sudo(toks: Seq<Seq<u8>>) -> Seq<Seq<u8>> {
    if toks.len() > 0 && toks[0] == sudo_bytes() {
        toks.drop_first()
    } else {
        toks
    }
}

/// A segment that produces no command and no error: blank, or a comment.
pub open spec fn spec_segment_skipped(seg: Seq<u8>) -> bool {
    spec_trim(seg).len() == 0 || spec_trim(seg)[0] == 35
}

/// The executable of a segment, if its tokens offer one.
pub open spec fn spec_segment_exe(seg: Seq<u8>) -> Option<Seq<u8>> {
    spec_pick_exe(spec_strip_sudo(spec_tokens(spec_trim(seg))))
}

/// The command a well-formed segment parses to.
pub open spec fn spec_segment_cmd(seg: Seq<u8>, time: Option<TimeInfo>) -> CommandView {
    CommandView {
        raw: spec_trim(seg),
        time,
        command: spec_segment_exe(seg).unwrap(),
        arguments: spec_strip_sudo(spec_tokens(spec_trim(seg))),
    }
}

proof fn lemma_pick_exe_skip(toks: Seq<Seq<u8>>, i: int)
    requires
        0 <= i <= toks.len(),
        forall|m: int| 0 <= m < i ==> !token_is_exe(#[trigger] toks[m]),
    ensures
        spec_pick_exe(toks) == spec_pick_exe(toks.subrange(i, toks.len() as int)),
    decreases i,
{
    if i > 0 {
        assert(!token_is_exe(toks[0]));
        assert(toks.drop_first() =~~= toks.subrange(1, toks.len() as int));
        assert forall|m: int| 0 <= m < i - 1 implies !token_is_exe(
            #[trigger] toks.drop_first()[m],
        ) by {
            assert(toks.drop_first()[m] == toks[m + 1]);
        }
        lemma_pick_exe_skip(toks.drop_first(), i - 1);
        assert(toks.drop_first().subrange(i - 1, toks.drop_first().len() as int) =~~= toks
            .subrange(i, toks.len() as int));
    } else {
        assert(toks.subrange(0, toks.len() as int) =~~= toks);
    }
}

fn token_ok(t: &[u8]) -> (r: bool)
    ensures
        r == token_is_exe(t@),
{
    let n = t.len();
    let mut i: usize = 0;
    while i < n
        invariant
            i <= n,
            n == t@.len(),
            forall|m: int| 0 <= m < i ==> t@[m] != 61 && t@[m] != 123,
        decreases n - i,
    {
        if t[i] == 61 || t[i] == 123 {
            return false;
        }
        i = i + 1;
    }
    true
}

/// Parses one segment of a block's command text.
///
/// A blank or comment segment is dropped silently (`Ok(None)`); a segment
/// whose tokens offer no executable is a `ParseError`; any other segment
/// yields one command carrying the block's timestamp.
pub fn parse_segment(seg: &[u8], time: Option<TimeInfo>) -> (r: Result<
    Option<Command>,
    crate::HistoryError,
>)
    ensures
        match r {
            Ok(None) => spec_segment_skipped(seg@),
            Ok(Some(c)) => !spec_segment_skipped(seg@) && spec_segment_exe(seg@) is Some && c@
                == spec_segment_cmd(seg@, time),
            Err(e) => e == crate::HistoryError::ParseError && !spec_segment_skipped(seg@)
                && spec_segment_exe(seg@) is None,
        },
{
    let trimmed = trim_vec(seg);
    if trimmed.len() == 0 {
        return Ok(None);
    }
    if *vstd::slice::slice_index_get(trimmed.as_slice(), 0) == 35 {
        return Ok(None);
    }
    let mut toks = tokens_of(trimmed.as_slice());
    let ghost toks0 = toks.deep_view();
    if toks.len() > 0 && crate::text::bytes_eq(toks[0].as_slice(), &[115, 117, 100, 111]) {
        proof {
            assert(toks.deep_view()[0] == toks@[0]@);
            assert(seq![115u8, 117u8, 100u8, 111u8] =~= sudo_bytes());
        }
        let _ = toks.remove(0);
        proof {
            assert(toks.deep_view() =~~= spec_strip_sudo(toks0));
        }
    } else {
        proof {
            if toks.deep_view().len() > 0 {
                assert(toks.deep_view()[0] == toks@[0]@);
                assert(seq![115u8, 117u8, 100u8, 111u8] =~= sudo_bytes());
            }
            assert(toks.deep_view() =~~= spec_strip_sudo(toks0));
        }
    }
    let ghost stripped = toks.deep_view();
    let n = toks.len();
    let mut i: usize = 0;
    while i < n
        invariant
            i <= n,
            n == toks@.len(),
            stripped == toks.deep_view(),
            trimmed@ == spec_trim(seg@),
            trimmed@.len() > 0,
            trimmed@[0] != 35,
            stripped == spec_strip_sudo(spec_tokens(trimmed@)),
            forall|m: int| 0 <= m < i ==> !token_is_exe(#[trigger] stripped[m]),
        decreases n - i,
    {
        if token_ok(toks[i].as_slice()) {
            proof {
                assert(stripped[i as int] == toks@[i as int]@);
                lemma_pick_exe_skip(stripped, i as int);
                assert(stripped.subrange(i as int, n as int)[0] == stripped[i as int]);
                assert(spec_pick_exe(stripped) == Some(stripped[i as int]));
            }
            let exe = vstd::slice::slice_to_vec(toks[i].as_slice());
            let cmd = Command { command_raw: trimmed, time, command: exe, arguments: toks };
            return Ok(Some(cmd));
        }
        proof {
            assert(stripped[i as int] == toks@[i as int]@);
        }
        i = i + 1;
    }
    proof {
        lemma_pick_exe_skip(stripped, n as int);
        assert(stripped.subrange(n as int, n as int) =~~= Seq::<Seq<u8>>::empty());
    }
    Err(crate::HistoryError::ParseError)
}

/// Index of the first `b` at or after `i`, or the length if there is none.
pub open spec fn scan_to(s: Seq<u8>, i: int, b: u8) -> int
    decreases s.len() - i,
{
    if i < 0 || i >= s.len() {
        s.len() as int
    } else if s[i] == b {
        i
    } else {
        scan_to(s, i + 1, b)
    }
}

proof fn lemma_scan_to_at(s: Seq<u8>, i: int, j: int, b: u8)
    requires
        0 <= i <= j <= s.len(),
        forall|m: int| i <= m < j ==> s[m] != b,
        j == s.len() || s[j] == b,
    ensures
        scan_to(s, i, b) == j,
    decreases j - i,
{
    if i < j {
        lemma_scan_to_at(s, i + 1, j, b);
    }
}

/// Index right after the run of digits starting at `i`.
pub open spec fn digits_end(s: Seq<u8>, i: int) -> int
    decreases s.len() - i,
{
    if i < 0 || i >= s.len() {
        s.len() as int
    } else if is_digit(s[i]) {
        digits_end(s, i + 1)
    } else {
        i
    }
}

proof fn lemma_digits_end_at(s: Seq<u8>, i: int, j: int)
    requires
        0 <= i <= j <= s.len(),
        forall|m: int| i <= m < j ==> is_digit(#[trigger] s[m]),
        j == s.len() || !is_digit(s[j]),
    ensures
        digits_end(s, i) == j,
    decreases j - i,
{
    if i < j {
        lemma_digits_end_at(s, i + 1, j);
    }
}

/// Scans the run of digits starting at `from`.
fn scan_digits(s: &[u8], from: usize) -> (r: usize)
    requires
        from <= s@.len(),
    ensures
        from <= r <= s@.len(),
        r == digits_end(s@, from as int),
        forall|m: int| from <= m < r ==> is_digit(#[trigger] s@[m]),
        r < s@.len() ==> !is_digit(s@[r as int]),
{
    let n = s.len();
    let mut j: usize = from;
    while j < n && is_digit_byte(s[j])
        invariant
            from <= j <= n,
            n == s@.len(),
            forall|m: int| from <= m < j ==> is_digit(#[trigger] s@[m]),
        decreases n - j,
    {
        j = j + 1;
    }
    proof {
        lemma_digits_end_at(s@, from as int, j as int);
    }
    j
}

/// A zsh history line split into its epoch digits and its command text:
/// `": <digits>:<digits>;<command>"` with a non-empty command.
pub open spec fn spec_zsh_parse(s: Seq<u8>) -> Option<(Seq<u8>, Seq<u8>)> {
    if s.len() >= 2 && s[0] == 58 && s[1] == 32 {
        let p = digits_end(s, 2);
        if p > 2 && p < s.len() && s[p] == 58 {
            let q = digits_end(s, p + 1);
            if q > p + 1 && q < s.len() && s[q] == 59 && q + 1 < s.len() {
                Some((s.subrange(2, p), s.subrange(q + 1, s.len() as int)))
            } else {
                None
            }
        } else {
            None
        }
    } else {
        None
    }
}

/// The first line of a bash block after its `#`, as a timestamp candidate.
pub open spec fn spec_bash_ts(s: Seq<u8>) -> Seq<u8> {
    s.subrange(1, scan_to(s, 1, 10))
}

/// The command body of a bash block: the first line at or after `i` that
/// is not a comment.
pub open spec fn spec_bash_body(s: Seq<u8>, i: int) -> Option<Seq<u8>>
    decreases s.len() - i,
    via spec_bash_body_decreases
{
    if i < 0 || i >= s.len() {
        None
    } else {
        let e = scan_to(s, i, 10);
        if s[i] == 35 {
            if e + 1 >= s.len() {
                None
            } else {
                spec_bash_body(s, e + 1)
            }
        } else {
            Some(s.subrange(i, e))
        }
    }
}

proof fn lemma_scan_to_bounds(s: Seq<u8>, i: int, b: u8)
    ensures
        0 <= i <= s.len() ==> i <= scan_to(s, i, b) <= s.len(),
    decreases s.len() - i,
{
    if 0 <= i < s.len() && s[i] != b {
        lemma_scan_to_bounds(s, i + 1, b);
    }
}

#[via_fn]
proof fn spec_bash_body_decreases(s: Seq<u8>, i: int) {
    if 0 <= i < s.len() {
        lemma_scan_to_bounds(s, i, 10);
    }
}

/// The command text a block yields under a provider's grammar, or nothing
/// where the block is malformed.
pub open spec fn spec_ctext(p: HistoryProvider, s: Seq<u8>) -> Option<Seq<u8>> {
    match p {
        HistoryProvider::Zsh => match spec_zsh_parse(s) {
            Some(dc) => if dec_value(dc.0) <= u64::MAX {
                Some(dc.1)
            } else {
                None
            },
            None => None,
        },
        HistoryProvider::Bash => {
            if s.len() == 0 || s[0] != 35 {
                Some(s)
            } else {
                spec_bash_body(s, scan_to(s, 0, 10) + 1)
            }
        },
        HistoryProvider::Atuin => {
            let k = scan_to(s, 0, 59);
            if k < s.len() {
                Some(s.subrange(k + 1, s.len() as int))
            } else {
                None
            }
        },
        HistoryProvider::Fish => {
            let k = scan_to(s, 0, 59);
            if 0 < k < s.len() && all_digits(s.subrange(0, k)) && dec_value(s.subrange(0, k))
                <= u64::MAX {
                Some(s.subrange(k + 1, s.len() as int))
            } else {
                None
            }
        },
    }
}

/// What holds of a timestamp reconstructed from epoch digits: the machine's
/// time zone decides the calendar fields, but any returned instant carries
/// exactly that epoch second, and epochs in the ordinary range always
/// yield one.
pub open spec fn epoch_time_ok(digits: Seq<u8>, t: Option<TimeInfo>) -> bool {
    &&& (t matches Some(ti) ==> ti.wf() && ti.epoch == dec_value(digits))
    &&& (dec_value(digits) < 200_000_000_000 ==> t is Some)
}

/// A bash block's timestamp line is recognizable when it holds digits that
/// fit an epoch second.
pub open spec fn bash_ts_recognizable(s: Seq<u8>) -> bool {
    &&& spec_bash_ts(s).len() > 0
    &&& all_digits(spec_bash_ts(s))
    &&& dec_value(spec_bash_ts(s)) <= u64::MAX
}

/// An atuin timestamp `"YYYY-MM-DD HH:MM:SS"`, as calendar fields
/// (year, month from 0, day, hour, minute, second); rejected unless it
/// names a real date and time of day.
pub open spec fn spec_datetime(t: Seq<u8>) -> Option<(int, int, int, int, int, int)> {
    if t.len() == 19 && t[4] == 45 && t[7] == 45 && t[10] == 32 && t[13] == 58 && t[16] == 58
        && all_digits(t.subrange(0, 4)) && all_digits(t.subrange(5, 7)) && all_digits(
        t.subrange(8, 10),
    ) && all_digits(t.subrange(11, 13)) && all_digits(t.subrange(14, 16)) && all_digits(
        t.subrange(17, 19),
    ) {
        let y = dec_value(t.subrange(0, 4)) as int;
        let mo = dec_value(t.subrange(5, 7)) as int;
        let d = dec_value(t.subrange(8, 10)) as int;
        let h = dec_value(t.subrange(11, 13)) as int;
        let mi = dec_value(t.subrange(14, 16)) as int;
        let sec = dec_value(t.subrange(17, 19)) as int;
        if 1 <= mo <= 12 && 1 <= d <= spec_days_in_month(y, mo - 1) && h < 24 && mi < 60 && sec
            < 60 {
            Some((y, mo - 1, d, h, mi, sec))
        } else {
            None
        }
    } else {
        None
    }
}

/// What holds of the timestamp a block yields under a provider's grammar.
///
/// Calendar fields of epoch-based timestamps, and the epoch second of a
/// wall-clock timestamp, depend on the machine's time zone; everything
/// else is pinned down.
pub open spec fn spec_time_ok(p: HistoryProvider, s: Seq<u8>, t: Option<TimeInfo>) -> bool {
    match p {
        HistoryProvider::Zsh => spec_zsh_parse(s) matches Some(dc) && epoch_time_ok(dc.0, t),
        HistoryProvider::Bash => {
            if s.len() == 0 || s[0] != 35 {
                t is None
            } else if bash_ts_recognizable(s) {
                epoch_time_ok(spec_bash_ts(s), t)
            } else {
                t is None
            }
        },
        HistoryProvider::Atuin => {
            let k = scan_to(s, 0, 59);
            match spec_datetime(s.subrange(0, k)) {
                Some(f) => t matches Some(ti) ==> {
                    &&& ti.wf()
                    &&& ti.year == f.0
                    &&& ti.month0 == f.1
                    &&& ti.day == f.2
                    &&& ti.hour == f.3
                    &&& ti.minute == f.4
                    &&& ti.second == f.5
                },
                None => t is None,
            }
        },
        HistoryProvider::Fish => {
            let k = scan_to(s, 0, 59);
            epoch_time_ok(s.subrange(0, k), t)
        },
    }
}

/// Parses an atuin timestamp `"YYYY-MM-DD HH:MM:SS"` into calendar fields.
fn parse_datetime(t: &[u8]) -> (r: Option<(i32, u8, u8, u8, u8, u8)>)
    ensures
        r matches Some(f) ==> spec_datetime(t@) == Some(
            (f.0 as int, f.1 as int, f.2 as int, f.3 as int, f.4 as int, f.5 as int),
        ),
        r is Some <==> spec_datetime(t@) is Some,
{
    if t.len() != 19 {
        return None;
    }
    if !(t[4] == 45 && t[7] == 45 && t[10] == 32 && t[13] == 58 && t[16] == 58) {
        return None;
    }
    let y = match parse_u64(t, 0, 4) {
        Some(v) => v,
        None => {
            proof {
                if all_digits(t@.subrange(0, 4)) {
                    no_overflow_4(t@.subrange(0, 4));
                }
            }
            return None;
        },
    };
    let mo = match parse_u64(t, 5, 7) {
        Some(v) => v,
        None => {
            proof {
                if all_digits(t@.subrange(5, 7)) {
                    no_overflow_4(t@.subrange(5, 7));
                }
            }
            return None;
        },
    };
    let d = match parse_u64(t, 8, 10) {
        Some(v) => v,
        None => {
            proof {
                if all_digits(t@.subrange(8, 10)) {
                    no_overflow_4(t@.subrange(8, 10));
                }
            }
            return None;
        },
    };
    let h = match parse_u64(t, 11, 13) {
        Some(v) => v,
        None => {
            proof {
                if all_digits(t@.subrange(11, 13)) {
                    no_overflow_4(t@.subrange(11, 13));
                }
            }
            return None;
        },
    };
    let mi = match parse_u64(t, 14, 16) {
        Some(v) => v,
        None => {
            proof {
                if all_digits(t@.subrange(14, 16)) {
                    no_overflow_4(t@.subrange(14, 16));
                }
            }
            return None;
        },
    };
    let sec = match parse_u64(t, 17, 19) {
        Some(v) => v,
        None => {
            proof {
                if all_digits(t@.subrange(17, 19)) {
                    no_overflow_4(t@.subrange(17, 19));
                }
            }
            return None;
        },
    };
    proof {
        crate::text::lemma_dec_value_upper(t@.subrange(0, 4));
        crate::text::lemma_dec_value_upper(t@.subrange(5, 7));
        crate::text::lemma_dec_value_upper(t@.subrange(8, 10));
        crate::text::lemma_dec_value_upper(t@.subrange(11, 13));
        crate::text::lemma_dec_value_upper(t@.subrange(14, 16));
        crate::text::lemma_dec_value_upper(t@.subrange(17, 19));
        assert(crate::text::pow10(4) == 10000) by {
            reveal_with_fuel(crate::text::pow10, 5);
        }
    }
    if !(1 <= mo && mo <= 12) {
        return None;
    }
    if !(1 <= d && d <= crate::time::days_in_month(y as i32, (mo - 1) as u8) as u64) {
        return None;
    }
    if !(h < 24 && mi < 60 && sec < 60) {
        return None;
    }
    Some((y as i32, (mo - 1) as u8, d as u8, h as u8, mi as u8, sec as u8))
}

/// A short run of digits cannot overflow a `u64`.
proof fn no_overflow_4(s: Seq<u8>)
    requires
        s.len() <= 4,
        all_digits(s),
    ensures
        dec_value(s) <= u64::MAX,
{
    crate::text::lemma_dec_value_upper(s);
    crate::text::lemma_pow10_mono(s.len() as nat, 4);
    assert(crate::text::pow10(4) == 10000) by {
        reveal_with_fuel(crate::text::pow10, 5);
    }
}

/// Carries one raw block through parsing: `from_raw`, then `parse` with a
/// provider, then `finish` to take the commands out.
pub struct CommandParser {
    pub raw: Vec<u8>,
    pub commands: Vec<Command>,
}

/// The commands a command text yields under a given timestamp: one per
/// segment that parses, in order; blank, comment and malformed segments
/// contribute nothing.
pub open spec fn spec_cmds_of_segs(segs: Seq<Seq<u8>>, time: Option<TimeInfo>) -> Seq<CommandView>
    decreases segs.len(),
{
    if segs.len() == 0 {
        Seq::empty()
    } else {
        let head: Seq<CommandView> = if !spec_segment_skipped(segs[0]) && spec_segment_exe(
            segs[0],
        ) is Some {
            seq![spec_segment_cmd(segs[0], time)]
        } else {
            Seq::empty()
        };
        head + spec_cmds_of_segs(segs.drop_first(), time)
    }
}

/// The commands of a whole command text.
pub open spec fn spec_cmds_of(text: Seq<u8>, time: Option<TimeInfo>) -> Seq<CommandView> {
    spec_cmds_of_segs(spec_split_cmds(text), time)
}

/// A command text splits into at most one segment more than it has bytes.
pub proof fn lemma_split_cmds_len(s: Seq<u8>)
    ensures
        spec_split_cmds(s).len() <= s.len() + 1,
    decreases s.len(),
{
    lemma_first_bound_bounds(s);
    let k = first_bound(s);
    if k < s.len() {
        lemma_split_cmds_len(s.subrange(k + bound_width(s, k), s.len() as int));
    }
}

/// At most one command per segment.
pub proof fn lemma_cmds_of_segs_len(segs: Seq<Seq<u8>>, time: Option<TimeInfo>)
    ensures
        spec_cmds_of_segs(segs, time).len() <= segs.len(),
    decreases segs.len(),
{
    if segs.len() > 0 {
        lemma_cmds_of_segs_len(segs.drop_first(), time);
    }
}

/// Every command of a block carries the block's timestamp.
pub proof fn lemma_cmds_of_segs_time(segs: Seq<Seq<u8>>, time: Option<TimeInfo>)
    ensures
        forall|i: int|
            0 <= i < spec_cmds_of_segs(segs, time).len() ==> spec_cmds_of_segs(segs, time)[i].time
                == time,
    decreases segs.len(),
{
    if segs.len() > 0 {
        lemma_cmds_of_segs_time(segs.drop_first(), time);
    }
}

proof fn lemma_bash_body_len(s: Seq<u8>, i: int)
    ensures
        spec_bash_body(s, i) matches Some(c) ==> c.len() <= s.len(),
    decreases s.len() - i,
{
    if 0 <= i < s.len() {
        lemma_scan_to_bounds(s, i, 10);
        let e = scan_to(s, i, 10);
        if s[i] == 35 && e + 1 < s.len() {
            lemma_bash_body_len(s, e + 1);
        }
    }
}

/// A block's command text is never longer than the block.
pub proof fn lemma_ctext_len(p: HistoryProvider, s: Seq<u8>)
    ensures
        spec_ctext(p, s) matches Some(c) ==> c.len() <= s.len(),
{
    match p {
        HistoryProvider::Bash => {
            if s.len() > 0 && s[0] == 35 {
                lemma_bash_body_len(s, scan_to(s, 0, 10) + 1);
            }
        },
        _ => {
            lemma_scan_to_bounds(s, 0, 59);
        },
    }
}

/// Any timestamp a block yields names a real date and time of day.
pub proof fn lemma_time_ok_wf(p: HistoryProvider, s: Seq<u8>, t: Option<TimeInfo>)
    requires
        spec_time_ok(p, s, t),
    ensures
        t matches Some(ti) ==> ti.wf(),
{
}

impl CommandParser {
    /// Wraps one raw block for parsing.
    pub fn from_raw(raw: Vec<u8>) -> (r: CommandParser)
        ensures
            r.raw@ == raw@,
            r.commands@.len() == 0,
    {
        CommandParser { raw, commands: Vec::new() }
    }

    /// Splits a zsh block `": <epoch>:<duration>;<commands>"`.
    pub fn parse_zsh_raw(&self) -> (r: Result<(Vec<u8>, Option<TimeInfo>), HistoryError>)
        ensures
            r is Ok <==> spec_ctext(HistoryProvider::Zsh, self.raw@) is Some,
            r matches Ok(ct) ==> ct.0@ == spec_ctext(HistoryProvider::Zsh, self.raw@).unwrap()
                && spec_time_ok(HistoryProvider::Zsh, self.raw@, ct.1),
            r matches Err(e) ==> e == HistoryError::ParseError,
    {
        let s = self.raw.as_slice();
        let n = s.len();
        if n >= 2 && s[0] == 58 && s[1] == 32 {
            let p = scan_digits(s, 2);
            if p > 2 && p < n && s[p] == 58 {
                let q = scan_digits(s, p + 1);
                if q > p + 1 && q < n && s[q] == 59 && q + 1 < n {
                    match parse_u64(s, 2, p) {
                        Some(v) => {
                            let time = local_time_of_epoch(v);
                            let cmds = subrange_vec(s, q + 1, n);
                            Ok((cmds, time))
                        },
                        None => Err(HistoryError::ParseError),
                    }
                } else {
                    Err(HistoryError::ParseError)
                }
            } else {
                Err(HistoryError::ParseError)
            }
        } else {
            Err(HistoryError::ParseError)
        }
    }

    /// Splits a bash block: an optional leading `#<epoch>` line, comment
    /// lines skipped, and the first other line as the command text.
    pub fn parse_bash_raw(&self) -> (r: Result<(Vec<u8>, Option<TimeInfo>), HistoryError>)
        ensures
            r is Ok <==> spec_ctext(HistoryProvider::Bash, self.raw@) is Some,
            r matches Ok(ct) ==> ct.0@ == spec_ctext(HistoryProvider::Bash, self.raw@).unwrap()
                && spec_time_ok(HistoryProvider::Bash, self.raw@, ct.1),
            r matches Err(e) ==> e == HistoryError::ParseError,
    {
        let s = self.raw.as_slice();
        let n = s.len();
        if n == 0 || s[0] != 35 {
            return Ok((vstd::slice::slice_to_vec(s), None));
        }
        let nl = match find_byte(s, 10, 0) {
            Some(j) => j,
            None => n,
        };
        proof {
            lemma_scan_to_at(s@, 0, nl as int, 10);
            lemma_scan_to_at(s@, 1, nl as int, 10);
        }
        let time = if nl > 1 {
            match parse_u64(s, 1, nl) {
                Some(v) => local_time_of_epoch(v),
                None => None,
            }
        } else {
            None
        };
        if nl >= n {
            return Err(HistoryError::ParseError);
        }
        let mut i: usize = nl + 1;
        let ghost start = i as int;
        while i < n
            invariant
                n == s@.len(),
                s@ == self.raw@,
                start <= i <= n,
                start == scan_to(s@, 0, 10) + 1,
                spec_bash_body(s@, start) == spec_bash_body(s@, i as int),
                spec_time_ok(HistoryProvider::Bash, s@, time),
                s@.len() > 0 && s@[0] == 35,
            decreases n - i,
        {
            let e = match find_byte(s, 10, i) {
                Some(j) => j,
                None => n,
            };
            proof {
                lemma_scan_to_at(s@, i as int, e as int, 10);
            }
            if s[i] == 35 {
                if e >= n {
                    return Err(HistoryError::ParseError);
                }
                i = e + 1;
            } else {
                return Ok((subrange_vec(s, i, e), time));
            }
        }
        Err(HistoryError::ParseError)
    }

    /// Splits an atuin line `"<wall-clock timestamp>;<commands>"`.
    pub fn parse_atuin_raw(&self) -> (r: Result<(Vec<u8>, Option<TimeInfo>), HistoryError>)
        ensures
            r is Ok <==> spec_ctext(HistoryProvider::Atuin, self.raw@) is Some,
            r matches Ok(ct) ==> ct.0@ == spec_ctext(HistoryProvider::Atuin, self.raw@).unwrap()
                && spec_time_ok(HistoryProvider::Atuin, self.raw@, ct.1),
            r matches Err(e) ==> e == HistoryError::ParseError,
    {
        let s = self.raw.as_slice();
        let n = s.len();
        let k = match find_byte(s, 59, 0) {
            Some(k) => k,
            None => {
                proof {
                    lemma_scan_to_at(s@, 0, n as int, 59);
                }
                return Err(HistoryError::ParseError);
            },
        };
        proof {
            lemma_scan_to_at(s@, 0, k as int, 59);
        }
        let tpart = subrange_vec(s, 0, k);
        proof {
            if spec_datetime(tpart@) is Some {
                crate::text::lemma_dec_value_upper(tpart@.subrange(0, 4));
                assert(crate::text::pow10(4) == 10000) by {
                    reveal_with_fuel(crate::text::pow10, 5);
                }
            }
        }
        let time = match parse_datetime(tpart.as_slice()) {
            Some(f) => match epoch_of_local_fields(f.0, f.1, f.2, f.3, f.4, f.5) {
                Some(ep) => Some(
                    TimeInfo {
                        epoch: ep,
                        year: f.0,
                        month0: f.1,
                        day: f.2,
                        hour: f.3,
                        minute: f.4,
                        second: f.5,
                    },
                ),
                None => None,
            },
            None => None,
        };
        Ok((subrange_vec(s, k + 1, n), time))
    }

    /// Splits a fish line `"<epoch>;<commands>"`.
    pub fn parse_fish_raw(&self) -> (r: Result<(Vec<u8>, Option<TimeInfo>), HistoryError>)
        ensures
            r is Ok <==> spec_ctext(HistoryProvider::Fish, self.raw@) is Some,
            r matches Ok(ct) ==> ct.0@ == spec_ctext(HistoryProvider::Fish, self.raw@).unwrap()
                && spec_time_ok(HistoryProvider::Fish, self.raw@, ct.1),
            r matches Err(e) ==> e == HistoryError::ParseError,
    {
        let s = self.raw.as_slice();
        let n = s.len();
        let k = match find_byte(s, 59, 0) {
            Some(k) => k,
            None => {
                proof {
                    lemma_scan_to_at(s@, 0, n as int, 59);
                }
                return Err(HistoryError::ParseError);
            },
        };
        proof {
            lemma_scan_to_at(s@, 0, k as int, 59);
        }
        match parse_u64(s, 0, k) {
            Some(v) => {
                let time = local_time_of_epoch(v);
                Ok((subrange_vec(s, k + 1, n), time))
            },
            None => Err(HistoryError::ParseError),
        }
    }

    /// Parses the block under the provider's grammar: extracts the command
    /// text and timestamp, splits the text on `&&` and `|`, and keeps every
    /// segment that parses.  Fails only where the block itself is
    /// malformed; malformed segments are skipped and their siblings kept.
    pub fn parse(self, provider: &HistoryProvider) -> (r: Result<CommandParser, HistoryError>)
        ensures
            r is Ok <==> spec_ctext(*provider, self.raw@) is Some,
            r matches Ok(p) ==> {
                &&& p.raw@ == self.raw@
                &&& exists|t: Option<TimeInfo>|
                    #[trigger] spec_time_ok(*provider, self.raw@, t) && p.commands.deep_view()
                        == self.commands.deep_view() + spec_cmds_of(
                        spec_ctext(*provider, self.raw@).unwrap(),
                        t,
                    )
            },
            r matches Err(e) ==> e == HistoryError::ParseError,
    {
        let parsed = match provider {
            HistoryProvider::Zsh => self.parse_zsh_raw(),
            HistoryProvider::Bash => self.parse_bash_raw(),
            HistoryProvider::Atuin => self.parse_atuin_raw(),
            HistoryProvider::Fish => self.parse_fish_raw(),
        };
        let (text, time) = match parsed {
            Ok(ct) => ct,
            Err(e) => {
                return Err(e);
            },
        };
        let ghost raw0 = self.raw@;
        let mut out = self;
        let segs = split_commands(text.as_slice());
        let ghost segsv = segs.deep_view();
        let ghost base = out.commands.deep_view();
        let n = segs.len();
        let mut i: usize = 0;
        proof {
            assert(segsv.subrange(0, n as int) =~~= segsv);
            assert(base + spec_cmds_of_segs(segsv, time) =~= base + spec_cmds_of_segs(
                segsv.subrange(0, n as int),
                time,
            ));
        }
        while i < n
            invariant
                i <= n,
                n == segs@.len(),
                segsv == segs.deep_view(),
                out.commands.deep_view() + spec_cmds_of_segs(
                    segsv.subrange(i as int, n as int),
                    time,
                ) == base + spec_cmds_of_segs(segsv, time),
                out.raw@ == raw0,
            decreases n - i,
        {
            let ghost rest = segsv.subrange(i as int, n as int);
            proof {
                assert(rest[0] == segsv[i as int]);
                assert(rest.drop_first() =~~= segsv.subrange(i + 1, n as int));
                assert(segs.deep_view()[i as int] == segs@[i as int]@);
            }
            match parse_segment(segs[i].as_slice(), time) {
                Ok(Some(c)) => {
                    let ghost pre = out.commands.deep_view();
                    let ghost cv = c@;
                    out.commands.push(c);
                    proof {
                        assert(out.commands.deep_view() =~~= pre.push(cv));
                        assert(pre.push(cv) + spec_cmds_of_segs(segsv.subrange(i + 1, n as int), time)
                            =~= pre + (seq![cv] + spec_cmds_of_segs(
                            segsv.subrange(i + 1, n as int),
                            time,
                        )));
                    }
                },
                Ok(None) => {},
                Err(_) => {},
            }
            i = i + 1;
        }
        proof {
            assert(segsv.subrange(n as int, n as int) =~~= Seq::<Seq<u8>>::empty());
            assert(out.commands.deep_view() + Seq::<CommandView>::empty() =~= out.commands
                .deep_view());
            assert(spec_time_ok(*provider, self.raw@, time) && out.commands.deep_view() == self
                .commands.deep_view() + spec_cmds_of(spec_ctext(*provider, self.raw@).unwrap(), time));
        }
        Ok(out)
    }

    /// Takes the parsed commands out.
    pub fn finish(self) -> (r: Vec<Command>)
        ensures
            r@ == self.commands@,
    {
        self.commands
    }
}

} // verus!
