//! Finding positions and spans in a text by its grapheme clusters, as a
//! reader sees them: a newline, or a carriage return and a newline, ends a
//! line, and every other cluster takes one column.

use vstd::prelude::*;
use vstd::string::StringExecFns;

use crate::error::{Position, Span};
use crate::util::str_eq;

verus! {

/// The extended grapheme clusters of `s`, in order, as Unicode's text
/// segmentation cuts it.
pub uninterp spec fn graphemes(s: Seq<char>) -> Seq<Seq<char>>;

/// The clusters `gs` joined together.
pub open spec fn joined(gs: Seq<Seq<char>>) -> Seq<char>
    decreases gs.len(),
{
    if gs.len() == 0 {
        Seq::empty()
    } else {
        joined(gs.drop_last()) + gs.last()
    }
}

/// `UnicodeSegmentation::graphemes` of unicode-segmentation, with extended
/// clusters: its result depends on the text alone, and its source cuts the
/// text into consecutive non-empty slices, so the clusters join back into
/// the text.
#[verifier::external_body]
fn grapheme_clusters<'a>(s: &'a str) -> (v: Vec<&'a str>)
    ensures
        v@.map_values(|g: &'a str| g@) == graphemes(s@),
        joined(v@.map_values(|g: &'a str| g@)) == s@,
        forall|i: int| 0 <= i < v@.len() ==> #[trigger] v@[i]@.len() > 0,
{
    unicode_segmentation::UnicodeSegmentation::graphemes(s, true).collect()
}

/// Whether the cluster `g` ends a line.
pub open spec fn ends_line(g: Seq<char>) -> bool {
    g == seq!['\n'] || g == seq!['\r', '\n']
}

/// The index of the cluster at `p`, walking from the cluster `k` of `gs`,
/// which stands at `line` and `col`; `None` where `p` is not reached.
pub open spec fn index_from(p: Position, gs: Seq<Seq<char>>, k: int, line: int, col: int) -> Option<int>
    decreases gs.len() - k,
{
    if line == p.line && col == p.col {
        Some(k)
    } else if k < 0 || k >= gs.len() {
        None
    } else if ends_line(gs[k]) {
        index_from(p, gs, k + 1, line + 1, 1)
    } else {
        index_from(p, gs, k + 1, line, col + 1)
    }
}

/// The index of the cluster at `p` among the clusters `gs` of a text, the
/// first standing at line 1, column 1; one past the last where `p` is just
/// past the end; `None` where `p` is not in the text.
pub open spec fn index_at(p: Position, gs: Seq<Seq<char>>) -> Option<int> {
    index_from(p, gs, 0, 1, 1)
}

proof fn lemma_index_from_bound(p: Position, gs: Seq<Seq<char>>, k: int, line: int, col: int)
    requires
        0 <= k <= gs.len(),
    ensures
        index_from(p, gs, k, line, col) matches Some(i) ==> k <= i <= gs.len(),
    decreases gs.len() - k,
{
    if !(line == p.line && col == p.col) && k < gs.len() {
        if ends_line(gs[k]) {
            lemma_index_from_bound(p, gs, k + 1, line + 1, 1);
        } else {
            lemma_index_from_bound(p, gs, k + 1, line, col + 1);
        }
    }
}

proof fn lemma_joined_len(gs: Seq<Seq<char>>)
    requires
        forall|i: int| 0 <= i < gs.len() ==> #[trigger] gs[i].len() > 0,
    ensures
        joined(gs).len() >= gs.len(),
    decreases gs.len(),
{
    if gs.len() > 0 {
        assert forall|i: int| 0 <= i < gs.drop_last().len() implies #[trigger] gs.drop_last()[i].len() > 0 by {
            assert(gs.drop_last()[i] == gs[i]);
        }
        lemma_joined_len(gs.drop_last());
    }
}

fn is_line_end(g: &str) -> (b: bool)
    ensures
        b == ends_line(g@),
{
    proof {
        reveal_strlit("\n");
        reveal_strlit("\r\n");
        assert("\n"@ =~= seq!['\n']);
        assert("\r\n"@ =~= seq!['\r', '\n']);
    }
    str_eq(g, "\n") || str_eq(g, "\r\n")
}

impl Position {
    /// The index of the cluster at this position among the clusters `gs` of
    /// a text; see [`index_at`].
    pub fn grapheme_index_in(&self, gs: &Vec<&str>) -> (r: Option<usize>)
        requires
            gs@.len() < usize::MAX,
        ensures
            match index_at(*self, gs@.map_values(|g: &str| g@)) {
                Some(i) => r == Some(i as usize),
                None => r is None,
            },
    {
        let ghost cs = gs@.map_values(|g: &str| g@);
        let mut line_no: usize = 1;
        let mut col_no: usize = 1;
        let mut i: usize = 0;
        while i < gs.len()
            invariant
                i <= gs@.len(),
                gs@.len() < usize::MAX,
                cs == gs@.map_values(|g: &str| g@),
                1 <= line_no <= i + 1,
                1 <= col_no <= i + 1,
                index_at(*self, cs) == index_from(*self, cs, i as int, line_no as int, col_no as int),
            decreases gs@.len() - i,
        {
            if line_no == self.line && col_no == self.col {
                return Some(i);
            }
            assert(cs[i as int] == gs@[i as int]@);
            if is_line_end(gs[i]) {
                line_no = line_no + 1;
                col_no = 1;
            } else {
                col_no = col_no + 1;
            }
            i = i + 1;
        }
        if line_no == self.line && col_no == self.col {
            Some(i)
        } else {
            None
        }
    }

    /// The index of the grapheme cluster of `s` at this position; one past
    /// the last where the position is just past the end; `None` where it is
    /// not in the text.
    pub fn grapheme_index(&self, s: &str) -> (r: Option<usize>)
        requires
            s@.len() < usize::MAX,
        ensures
            match index_at(*self, graphemes(s@)) {
                Some(i) => r == Some(i as usize),
                None => r is None,
            },
    {
        let gs = grapheme_clusters(s);
        proof {
            assert forall|i: int| 0 <= i < graphemes(s@).len() implies #[trigger] graphemes(s@)[i].len() > 0 by {
                assert(graphemes(s@)[i] == gs@[i]@);
            }
            lemma_joined_len(graphemes(s@));
        }
        self.grapheme_index_in(&gs)
    }
}

/// Whether the clusters `gs` select, from `start` to `end`, a range that
/// comes in order: both ends reached, the first not after the second.
pub open spec fn in_order(span: Span, gs: Seq<Seq<char>>) -> bool {
    match (index_at(span.start, gs), index_at(span.end, gs)) {
        (Some(a), Some(b)) => a <= b,
        _ => true,
    }
}

/// Whether, from `start` through `end` inclusive, the clusters `gs` select
/// a range that comes in order, wherever the end is at a cluster.
pub open spec fn in_order_inclusive(span: Span, gs: Seq<Seq<char>>) -> bool {
    match (index_at(span.start, gs), index_at(span.end, gs)) {
        (Some(a), Some(b)) => b < gs.len() ==> a <= b + 1,
        _ => true,
    }
}

/// The clusters `gs[a..b]` joined.
fn join_range(gs: &Vec<&str>, a: usize, b: usize) -> (t: String)
    requires
        a <= b <= gs@.len(),
    ensures
        t@ == joined(gs@.map_values(|g: &str| g@).subrange(a as int, b as int)),
{
    let ghost cs = gs@.map_values(|g: &str| g@);
    let mut t = String::new();
    let mut i = a;
    while i < b
        invariant
            a <= i <= b <= gs@.len(),
            cs == gs@.map_values(|g: &str| g@),
            t@ == joined(cs.subrange(a as int, i as int)),
        decreases b - i,
    {
        t.append(gs[i]);
        proof {
            let sub = cs.subrange(a as int, i + 1);
            assert(sub.drop_last() =~= cs.subrange(a as int, i as int));
            assert(sub.last() == gs@[i as int]@);
        }
        i = i + 1;
    }
    t
}

impl Span {
    /// The text that this span selects among the clusters `gs` of a text,
    /// from the start up to the end excluded; `None` where either end is
    /// not in the text.
    pub fn substring_exclusive_in(&self, gs: &Vec<&str>) -> (r: Option<String>)
        requires
            gs@.len() < usize::MAX,
            in_order(*self, gs@.map_values(|g: &str| g@)),
        ensures
            ({
                let cs = gs@.map_values(|g: &str| g@);
                match (index_at(self.start, cs), index_at(self.end, cs)) {
                    (Some(a), Some(b)) => r matches Some(t) && t@ == joined(cs.subrange(a, b)),
                    _ => r is None,
                }
            }),
    {
        proof {
            lemma_index_from_bound(self.start, gs@.map_values(|g: &str| g@), 0, 1, 1);
            lemma_index_from_bound(self.end, gs@.map_values(|g: &str| g@), 0, 1, 1);
        }
        match (self.start.grapheme_index_in(gs), self.end.grapheme_index_in(gs)) {
            (Some(a), Some(b)) => Some(join_range(gs, a, b)),
            _ => None,
        }
    }

    /// The text that this span selects among the clusters `gs` of a text,
    /// from the start through the end; `None` where either end is not in
    /// the text or the end is just past it.
    pub fn substring_inclusive_in(&self, gs: &Vec<&str>) -> (r: Option<String>)
        requires
            gs@.len() < usize::MAX,
            in_order_inclusive(*self, gs@.map_values(|g: &str| g@)),
        ensures
            ({
                let cs = gs@.map_values(|g: &str| g@);
                match (index_at(self.start, cs), index_at(self.end, cs)) {
                    (Some(a), Some(b)) => if b < cs.len() {
                        r matches Some(t) && t@ == joined(cs.subrange(a, b + 1))
                    } else {
                        r is None
                    },
                    _ => r is None,
                }
            }),
    {
        proof {
            lemma_index_from_bound(self.start, gs@.map_values(|g: &str| g@), 0, 1, 1);
            lemma_index_from_bound(self.end, gs@.map_values(|g: &str| g@), 0, 1, 1);
        }
        match (self.start.grapheme_index_in(gs), self.end.grapheme_index_in(gs)) {
            (Some(a), Some(b)) => if b < gs.len() {
                Some(join_range(gs, a, b + 1))
            } else {
                None
            },
            _ => None,
        }
    }

    /// The text of `s` that this span selects, from the start up to the end
    /// excluded, by grapheme clusters; `None` where either end is not in
    /// the text.
    pub fn substring_exclusive(&self, s: &str) -> (r: Option<String>)
        requires
            s@.len() < usize::MAX,
            in_order(*self, graphemes(s@)),
        ensures
            match (index_at(self.start, graphemes(s@)), index_at(self.end, graphemes(s@))) {
                (Some(a), Some(b)) => r matches Some(t) && t@ == joined(graphemes(s@).subrange(a, b)),
                _ => r is None,
            },
    {
        let gs = grapheme_clusters(s);
        proof {
            assert forall|i: int| 0 <= i < graphemes(s@).len() implies #[trigger] graphemes(s@)[i].len() > 0 by {
                assert(graphemes(s@)[i] == gs@[i]@);
            }
            lemma_joined_len(graphemes(s@));
        }
        self.substring_exclusive_in(&gs)
    }

    /// The text of `s` that this span selects, from the start through the
    /// end, by grapheme clusters; `None` where either end is not in the
    /// text or the end is just past it.
    pub fn substring_inclusive(&self, s: &str) -> (r: Option<String>)
        requires
            s@.len() < usize::MAX,
            in_order_inclusive(*self, graphemes(s@)),
        ensures
            match (index_at(self.start, graphemes(s@)), index_at(self.end, graphemes(s@))) {
                (Some(a), Some(b)) => if b < graphemes(s@).len() {
                    r matches Some(t) && t@ == joined(graphemes(s@).subrange(a, b + 1))
                } else {
                    r is None
                },
                _ => r is None,
            },
    {
        let gs = grapheme_clusters(s);
        proof {
            assert forall|i: int| 0 <= i < graphemes(s@).len() implies #[trigger] graphemes(s@)[i].len() > 0 by {
                assert(graphemes(s@)[i] == gs@[i]@);
            }
            lemma_joined_len(graphemes(s@));
        }
        self.substring_inclusive_in(&gs)
    }

    /// [`Span::substring_exclusive`] where the span's ends come in order;
    /// `None` where they do not, and otherwise its answer.
    pub fn checked_substring_exclusive(&self, s: &str) -> (r: Option<Option<String>>)
        requires
            s@.len() < usize::MAX,
        ensures
            r is None <==> !in_order(*self, graphemes(s@)),
            r matches Some(x) ==> match (
                index_at(self.start, graphemes(s@)),
                index_at(self.end, graphemes(s@)),
            ) {
                (Some(a), Some(b)) => x matches Some(t) && t@ == joined(graphemes(s@).subrange(a, b)),
                _ => x is None,
            },
    {
        let gs = grapheme_clusters(s);
        proof {
            assert forall|i: int| 0 <= i < graphemes(s@).len() implies #[trigger] graphemes(s@)[i].len() > 0 by {
                assert(graphemes(s@)[i] == gs@[i]@);
            }
            lemma_joined_len(graphemes(s@));
            lemma_index_from_bound(self.start, graphemes(s@), 0, 1, 1);
            lemma_index_from_bound(self.end, graphemes(s@), 0, 1, 1);
        }
        match (self.start.grapheme_index_in(&gs), self.end.grapheme_index_in(&gs)) {
            (Some(a), Some(b)) => {
                if a > b {
                    return None;
                }
            },
            _ => {},
        }
        Some(self.substring_exclusive(s))
    }

    /// [`Span::substring_inclusive`] where the span's ends come in order;
    /// `None` where they do not, and otherwise its answer.
    pub fn checked_substring_inclusive(&self, s: &str) -> (r: Option<Option<String>>)
        requires
            s@.len() < usize::MAX,
        ensures
            r is None <==> !in_order_inclusive(*self, graphemes(s@)),
            r matches Some(x) ==> match (
                index_at(self.start, graphemes(s@)),
                index_at(self.end, graphemes(s@)),
            ) {
                (Some(a), Some(b)) => if b < graphemes(s@).len() {
                    x matches Some(t) && t@ == joined(graphemes(s@).subrange(a, b + 1))
                } else {
                    x is None
                },
                _ => x is None,
            },
    {
        let gs = grapheme_clusters(s);
        proof {
            assert forall|i: int| 0 <= i < graphemes(s@).len() implies #[trigger] graphemes(s@)[i].len() > 0 by {
                assert(graphemes(s@)[i] == gs@[i]@);
            }
            lemma_joined_len(graphemes(s@));
            lemma_index_from_bound(self.start, graphemes(s@), 0, 1, 1);
            lemma_index_from_bound(self.end, graphemes(s@), 0, 1, 1);
        }
        match (self.start.grapheme_index_in(&gs), self.end.grapheme_index_in(&gs)) {
            (Some(a), Some(b)) => {
                if b < gs.len() && a > b + 1 {
                    return None;
                }
            },
            _ => {},
        }
        Some(self.substring_inclusive(s))
    }
}

} // verus!
