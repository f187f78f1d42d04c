//! History sources and block segmentation.
//!
//! A provider names the shell or history tool whose log is being read.
//! `History` is the segmenter: fed one raw line of bytes at a time, it
//! joins continued lines according to the provider's rules and hands back
//! completed blocks, each one logical history entry.

use vstd::prelude::*;

use crate::text::{push_all, spec_trim_end, trim_end_vec};

verus! {

/// The shell or history tool whose log format is being parsed.
#[derive(Clone, Copy, Debug, PartialEq, Eq, Structural)]
pub enum HistoryProvider {
    Zsh,
    Bash,
    Atuin,
    Fish,
}

impl HistoryProvider {
    /// The keyword that selects this provider, as bytes.
    pub open spec fn spec_keyword(self) -> Seq<u8> {
        match self {
            HistoryProvider::Zsh => seq![122u8, 115u8, 104u8],  // "zsh"
            HistoryProvider::Bash => seq![98u8, 97u8, 115u8, 104u8],  // "bash"
            HistoryProvider::Atuin => seq![97u8, 116u8, 117u8, 105u8, 110u8],  // "atuin"
            HistoryProvider::Fish => seq![102u8, 105u8, 115u8, 104u8],  // "fish"
        }
    }

    /// Resolves a keyword to its provider; unsupported keywords are
    /// rejected.
    pub fn try_from_keyword(s: &[u8]) -> (r: Option<HistoryProvider>)
        ensures
            r matches Some(p) ==> s@ == p.spec_keyword(),
            r is None ==> forall|p: HistoryProvider| s@ != #[trigger] p.spec_keyword(),
    {
        if s.len() == 3 && s[0] == 122 && s[1] == 115 && s[2] == 104 {
            proof {
                assert(s@ =~= HistoryProvider::Zsh.spec_keyword());
            }
            Some(HistoryProvider::Zsh)
        } else if s.len() == 4 && s[0] == 98 && s[1] == 97 && s[2] == 115 && s[3] == 104 {
            proof {
                assert(s@ =~= HistoryProvider::Bash.spec_keyword());
            }
            Some(HistoryProvider::Bash)
        } else if s.len() == 5 && s[0] == 97 && s[1] == 116 && s[2] == 117 && s[3] == 105
            && s[4] == 110 {
            proof {
                assert(s@ =~= HistoryProvider::Atuin.spec_keyword());
            }
            Some(HistoryProvider::Atuin)
        } else if s.len() == 4 && s[0] == 102 && s[1] == 105 && s[2] == 115 && s[3] == 104 {
            proof {
                assert(s@ =~= HistoryProvider::Fish.spec_keyword());
            }
            Some(HistoryProvider::Fish)
        } else {
            None
        }
    }

    /// Resolves a keyword known to be supported.
    pub fn from(provider: &String) -> (r: HistoryProvider)
        requires
            exists|p: HistoryProvider|
                vstd::utf8::encode_utf8(provider@) == #[trigger] p.spec_keyword(),
        ensures
            vstd::utf8::encode_utf8(provider@) == r.spec_keyword(),
    {
        let bytes = provider.as_str().as_bytes();
        match Self::try_from_keyword(bytes) {
            Some(p) => p,
            None => {
                proof {
                    assert(false);
                }
                HistoryProvider::Zsh
            },
        }
    }
}

/// What one fed line does to the segmenter: the accumulator after the
/// line, and the block the line completed, if any.
///
/// For bash, comment and continuation lines (leading `#`) accumulate as
/// they are and any other line completes the block.  For the others, each
/// line is stripped of trailing whitespace; an all-whitespace line is
/// skipped, a line ending in a backslash joins the next one (backslash
/// dropped), and any other line completes the block.
pub open spec fn spec_feed(
    provider: HistoryProvider,
    acc: Seq<u8>,
    line: Seq<u8>,
) -> (Seq<u8>, Option<Seq<u8>>) {
    match provider {
        HistoryProvider::Bash => {
            if line.len() == 0 || line[0] == 35 {
                (acc + line, None)
            } else {
                (Seq::empty(), Some(acc + line))
            }
        },
        _ => {
            let t = spec_trim_end(line);
            if t.len() == 0 {
                (acc, None)
            } else if t.last() == 92 {
                (acc + t.drop_last(), None)
            } else {
                (Seq::empty(), Some(acc + t))
            }
        },
    }
}

/// What the end of the stream does to the segmenter: zsh-style sources
/// flush a non-empty partial block once; bash drops it.
pub open spec fn spec_finish(provider: HistoryProvider, acc: Seq<u8>) -> Option<Seq<u8>> {
    match provider {
        HistoryProvider::Bash => None,
        _ => if acc.len() > 0 {
            Some(acc)
        } else {
            None
        },
    }
}

/// The blocks that a whole sequence of lines segments into, paired with
/// the accumulator left over.
pub open spec fn spec_segment(provider: HistoryProvider, lines: Seq<Seq<u8>>) -> (
    Seq<u8>,
    Seq<Seq<u8>>,
)
    decreases lines.len(),
{
    if lines.len() == 0 {
        (Seq::empty(), Seq::empty())
    } else {
        let (acc, blocks) = spec_segment(provider, lines.drop_last());
        let (acc2, out) = spec_feed(provider, acc, lines.last());
        match out {
            Some(b) => (acc2, blocks.push(b)),
            None => (acc2, blocks),
        }
    }
}

/// All blocks of a finite stream of lines, final flush included.
pub open spec fn spec_blocks(provider: HistoryProvider, lines: Seq<Seq<u8>>) -> Seq<Seq<u8>> {
    let (acc, blocks) = spec_segment(provider, lines);
    match spec_finish(provider, acc) {
        Some(b) => blocks.push(b),
        None => blocks,
    }
}

/// The block segmenter: joins raw history lines into blocks under a
/// provider's continuation rules.
pub struct History {
    pub provider: HistoryProvider,
    /// The partial block accumulated from continued lines.
    pub acc: Vec<u8>,
}

pub open spec fn opt_bytes(o: Option<Vec<u8>>) -> Option<Seq<u8>> {
    match o {
        Some(v) => Some(v@),
        None => None,
    }
}

impl History {
    /// A fresh segmenter for one pass over a provider's history.
    pub fn from(provider: &HistoryProvider) -> (r: History)
        ensures
            r.provider == *provider,
            r.acc@ == Seq::<u8>::empty(),
    {
        History { provider: *provider, acc: Vec::new() }
    }

    /// Feeds one raw line (with or without its trailing newline) and
    /// returns the block it completed, if any.
    pub fn feed(&mut self, line: &[u8]) -> (r: Option<Vec<u8>>)
        ensures
            final(self).provider == old(self).provider,
            (final(self).acc@, opt_bytes(r)) == spec_feed(old(self).provider, old(self).acc@, line@),
    {
        match self.provider {
            HistoryProvider::Bash => {
                if line.len() == 0 || slice_first(line) == 35 {
                    push_all(&mut self.acc, line);
                    None
                } else {
                    push_all(&mut self.acc, line);
                    Some(take_vec(&mut self.acc))
                }
            },
            _ => {
                let t = trim_end_vec(line);
                if t.len() == 0 {
                    None
                } else if slice_last(t.as_slice()) == 92 {
                    let stripped = crate::text::subrange_vec(t.as_slice(), 0, t.len() - 1);
                    proof {
                        assert(stripped@ =~= spec_trim_end(line@).drop_last());
                    }
                    push_all(&mut self.acc, stripped.as_slice());
                    None
                } else {
                    push_all(&mut self.acc, t.as_slice());
                    Some(take_vec(&mut self.acc))
                }
            },
        }
    }

    /// Ends the stream: flushes the partial block where the provider's
    /// rules keep one.
    pub fn finish(self) -> (r: Option<Vec<u8>>)
        ensures
            opt_bytes(r) == spec_finish(self.provider, self.acc@),
    {
        match self.provider {
            HistoryProvider::Bash => None,
            _ => {
                if self.acc.len() > 0 {
                    Some(self.acc)
                } else {
                    None
                }
            },
        }
    }
}

/// Moves the vector out, leaving an empty one behind.
fn take_vec(v: &mut Vec<u8>) -> (r: Vec<u8>)
    ensures
        r@ == old(v)@,
        final(v)@ == Seq::<u8>::empty(),
{
    let mut tmp = Vec::new();
    core::mem::swap(v, &mut tmp);
    tmp
}

fn slice_first(s: &[u8]) -> (r: u8)
    requires
        s@.len() > 0,
    ensures
        r == s@[0],
{
    s[0]
}

fn slice_last(s: &[u8]) -> (r: u8)
    requires
        s@.len() > 0,
    ensures
        r == s@.last(),
{
    s[s.len() - 1]
}

/// The last line of a byte string: everything after its last newline.
pub open spec fn spec_last_line(t: Seq<u8>) -> Seq<u8>
    decreases t.len(),
{
    if t.len() == 0 {
        t
    } else if t.last() == 10 {
        Seq::empty()
    } else {
        spec_last_line(t.drop_last()).push(t.last())
    }
}

proof fn lemma_last_line_at(t: Seq<u8>, k: int)
    requires
        0 <= k <= t.len(),
        forall|m: int| k <= m < t.len() ==> t[m] != 10,
        k == 0 || t[k - 1] == 10,
    ensures
        spec_last_line(t) == t.subrange(k, t.len() as int),
    decreases t.len() - k,
{
    if k < t.len() {
        assert(t.last() != 10);
        lemma_last_line_at(t.drop_last(), k);
        assert(t.drop_last().subrange(k, t.len() - 1).push(t.last()) =~= t.subrange(
            k,
            t.len() as int,
        ));
    } else {
        if t.len() > 0 {
            assert(t.last() == 10);
        }
        assert(t.subrange(k, t.len() as int) =~= Seq::<u8>::empty());
    }
}

/// The last line of a shell's output, the whole trimmed: where a shell is
/// asked to print its history file's path, this is the path line.  Empty
/// where the output holds none.
pub fn histfile_path_line(output: &[u8]) -> (r: Vec<u8>)
    ensures
        r@ == spec_last_line(crate::text::spec_trim(output@)),
{
    let t = crate::text::trim_vec(output);
    let n = t.len();
    let mut k: usize = n;
    while k > 0 && *vstd::slice::slice_index_get(t.as_slice(), k - 1) != 10
        invariant
            k <= n,
            n == t@.len(),
            forall|m: int| k <= m < n ==> t@[m] != 10,
        decreases k,
    {
        k = k - 1;
    }
    proof {
        lemma_last_line_at(t@, k as int);
    }
    crate::text::subrange_vec(t.as_slice(), k, n)
}

/// Segments a whole stream of lines at once.
pub fn segment_lines(provider: &HistoryProvider, lines: &Vec<Vec<u8>>) -> (r: Vec<Vec<u8>>)
    ensures
        r.deep_view() == spec_blocks(*provider, lines.deep_view()),
{
    let mut h = History::from(provider);
    let mut blocks: Vec<Vec<u8>> = Vec::new();
    let n = lines.len();
    let mut i: usize = 0;
    proof {
        assert(lines.deep_view().subrange(0, 0) =~= Seq::<Seq<u8>>::empty());
    }
    while i < n
        invariant
            i <= n,
            n == lines@.len(),
            lines.deep_view().len() == n,
            h.provider == *provider,
            (h.acc@, blocks.deep_view()) == spec_segment(
                *provider,
                lines.deep_view().subrange(0, i as int),
            ),
        decreases n - i,
    {
        proof {
            assert(lines.deep_view()[i as int] == lines@[i as int]@);
            assert(lines.deep_view().subrange(0, i + 1).drop_last() =~= lines.deep_view()
                .subrange(0, i as int));
            assert(lines.deep_view().subrange(0, i + 1).last() == lines.deep_view()[i as int]);
        }
        let ghost pre = blocks.deep_view();
        let out = h.feed(lines[i].as_slice());
        match out {
            Some(b) => {
                let ghost bv = b@;
                blocks.push(b);
                proof {
                    assert(blocks.deep_view() =~~= pre.push(bv));
                }
            },
            None => {},
        }
        i = i + 1;
    }
    proof {
        assert(lines.deep_view().subrange(0, n as int) =~= lines.deep_view());
    }
    let ghost pre = blocks.deep_view();
    match h.finish() {
        Some(b) => {
            let ghost bv = b@;
            blocks.push(b);
            proof {
                assert(blocks.deep_view() =~~= pre.push(bv));
            }
            blocks
        },
        None => blocks,
    }
}

} // verus!
