use vstd::prelude::*;
use vstd::slice::{slice_subrange, slice_to_vec};

use crate::text::occurs_at;

verus! {

/// The plain opening delimiter, three backticks then `plantuml` then a
/// newline.
pub open spec fn fence_plain() -> Seq<u8> {
    seq![96u8, 96u8, 96u8, 112u8, 108u8, 97u8, 110u8, 116u8, 117u8, 109u8, 108u8, 10u8]
}

/// The bare delimiter, three backticks, reserved as a closing marker.
pub open spec fn fence_bare() -> Seq<u8> {
    seq![96u8, 96u8, 96u8]
}

/// The suppressed opening delimiter, the plain one with `,ignore` before the
/// newline.
pub open spec fn fence_suppressed() -> Seq<u8> {
    seq![
        96u8,
        96u8,
        96u8,
        112u8,
        108u8,
        97u8,
        110u8,
        116u8,
        117u8,
        109u8,
        108u8,
        44u8,
        105u8,
        103u8,
        110u8,
        111u8,
        114u8,
        101u8,
        10u8,
    ]
}

/// One delimiter occurrence: its span, and which literal matched (0 the
/// plain opener, 1 the bare delimiter, 2 the suppressed opener).
#[derive(Clone, Copy, Debug)]
pub struct Hit {
    pub start: usize,
    pub end: usize,
    pub pat: usize,
}

impl View for Hit {
    type V = (int, int, int);

    open spec fn view(&self) -> (int, int, int) {
        (self.start as int, self.end as int, self.pat as int)
    }
}

/// All delimiter occurrences at or after `i`, leftmost first: at the first
/// offset where any literal occurs, the longest literal there is taken, and
/// the search resumes at its end, so occurrences never overlap.
pub open spec fn hits_from(t: Seq<u8>, i: int) -> Seq<(int, int, int)>
    decreases t.len() - i,
{
    if i < 0 || i + 3 > t.len() {
        Seq::empty()
    } else if occurs_at(t, fence_suppressed(), i) {
        seq![(i, i + 19, 2)] + hits_from(t, i + 19)
    } else if occurs_at(t, fence_plain(), i) {
        seq![(i, i + 12, 0)] + hits_from(t, i + 12)
    } else if occurs_at(t, fence_bare(), i) {
        seq![(i, i + 3, 1)] + hits_from(t, i + 3)
    } else {
        hits_from(t, i + 1)
    }
}

/// All delimiter occurrences of `t`, leftmost first.
pub open spec fn delimiter_hits(t: Seq<u8>) -> Seq<(int, int, int)> {
    hits_from(t, 0)
}

/// Well-formedness of a delimiter occurrence list over `t`: spans lie inside
/// `t`, are non-empty, ordered and non-overlapping, and each literal index
/// names one of the three literals.
pub open spec fn hits_wf(t: Seq<u8>, ms: Seq<(int, int, int)>) -> bool {
    forall|j: int|
        #![trigger ms[j]]
        0 <= j < ms.len() ==> 0 <= ms[j].0 && ms[j].0 < ms[j].1 && ms[j].1 <= t.len() && (ms[j].2
            == 0 || ms[j].2 == 1 || ms[j].2 == 2) && (j + 1 < ms.len() ==> ms[j].1 <= ms[j + 1].0)
}

/// The occurrence list that `hits_from` produces is well formed and starts
/// at or after `i`.
pub proof fn lemma_hits_wf(t: Seq<u8>, i: int)
    ensures
        hits_wf(t, hits_from(t, i)),
        hits_from(t, i).len() > 0 ==> i <= hits_from(t, i)[0].0,
    decreases t.len() - i,
{
    if i < 0 || i + 3 > t.len() {
    } else if occurs_at(t, fence_suppressed(), i) {
        lemma_hits_wf(t, i + 19);
        lemma_hits_cons(t, hits_from(t, i), (i, i + 19, 2), hits_from(t, i + 19), i + 19);
    } else if occurs_at(t, fence_plain(), i) {
        lemma_hits_wf(t, i + 12);
        lemma_hits_cons(t, hits_from(t, i), (i, i + 12, 0), hits_from(t, i + 12), i + 12);
    } else if occurs_at(t, fence_bare(), i) {
        lemma_hits_wf(t, i + 3);
        lemma_hits_cons(t, hits_from(t, i), (i, i + 3, 1), hits_from(t, i + 3), i + 3);
    } else {
        lemma_hits_wf(t, i + 1);
    }
}

/// Prepending one well-placed occurrence to a well-formed list keeps the
/// list well formed.
proof fn lemma_hits_cons(
    t: Seq<u8>,
    ms: Seq<(int, int, int)>,
    head: (int, int, int),
    rest: Seq<(int, int, int)>,
    bound: int,
)
    requires
        ms == seq![head] + rest,
        hits_wf(t, rest),
        0 <= head.0 && head.0 < head.1 && head.1 <= t.len(),
        head.2 == 0 || head.2 == 1 || head.2 == 2,
        head.1 <= bound,
        rest.len() > 0 ==> bound <= rest[0].0,
    ensures
        hits_wf(t, ms),
{
    assert forall|j: int| 0 <= j < ms.len() implies 0 <= ms[j].0 && ms[j].0 < ms[j].1 && ms[j].1
        <= t.len() && (ms[j].2 == 0 || ms[j].2 == 1 || ms[j].2 == 2) && (j + 1 < ms.len()
        ==> ms[j].1 <= ms[j + 1].0) by {
        if j == 0 {
            if 1 < ms.len() {
                assert(ms[1] == rest[0]);
            }
        } else {
            assert(ms[j] == rest[j - 1]);
            if j + 1 < ms.len() {
                assert(ms[j + 1] == rest[j]);
            }
        }
    }
}

/// Relies on aho_corasick::AhoCorasick (0.7): an automaton built with
/// MatchKind::LeftmostLongest over the three delimiter literals reports,
/// through find_iter, successive non-overlapping matches; each one is the
/// longest literal at the leftmost offset, at or after the end of the
/// previous match, where any of the literals occurs.
#[verifier::external_body]
fn delimiter_search(text: &[u8]) -> (r: Vec<Hit>)
    ensures
        r@.map_values(|h: Hit| h@) == delimiter_hits(text@),
{
    let ac = aho_corasick::AhoCorasickBuilder::new()
        .match_kind(aho_corasick::MatchKind::LeftmostLongest)
        .build(["```plantuml\n", "```", "```plantuml,ignore\n"]);
    ac.find_iter(text)
        .map(|m| Hit { start: m.start(), end: m.end(), pat: m.pattern() })
        .collect()
}

/// One diagram block: its span in the source text (delimiters inclusive),
/// the raw content strictly between the delimiters, and whether it is
/// suppressed.
#[derive(Clone, Debug)]
pub struct Puml {
    pub start: usize,
    pub end: usize,
    pub contents: Vec<u8>,
    pub ignore: bool,
}

/// The mathematical shape of one block.
pub ghost struct PumlView {
    pub start: int,
    pub end: int,
    pub contents: Seq<u8>,
    pub ignore: bool,
}

impl View for Puml {
    type V = PumlView;

    open spec fn view(&self) -> PumlView {
        PumlView {
            start: self.start as int,
            end: self.end as int,
            contents: self.contents@,
            ignore: self.ignore,
        }
    }
}

impl PartialEq for Puml {
    fn eq(&self, other: &Puml) -> (r: bool) {
        self.start == other.start && self.end == other.end && self.ignore == other.ignore
            && bytes_equal(self.contents.as_slice(), other.contents.as_slice())
    }
}

impl vstd::std_specs::cmp::PartialEqSpecImpl for Puml {
    open spec fn obeys_eq_spec() -> bool {
        true
    }

    open spec fn eq_spec(&self, other: &Puml) -> bool {
        self@ == other@
    }
}

/// Byte-wise equality of two slices.
pub fn bytes_equal(a: &[u8], b: &[u8]) -> (r: bool)
    ensures
        r == (a@ == b@),
{
    if a.len() != b.len() {
        return false;
    }
    let mut j: usize = 0;
    while j < a.len()
        invariant
            a@.len() == b@.len(),
            j <= a@.len(),
            forall|m: int| 0 <= m < j ==> a@[m] == b@[m],
        decreases a@.len() - j,
    {
        if *vstd::slice::slice_index_get(a, j) != *vstd::slice::slice_index_get(b, j) {
            return false;
        }
        j += 1;
    }
    proof {
        assert(a@ =~= b@);
    }
    true
}

/// Pairs the occurrence list into blocks, starting at entry `k`: a bare
/// delimiter is never an opener; an opener is closed by the very next
/// delimiter occurrence of any kind; an opener that no occurrence follows is
/// dropped.
pub open spec fn pair_from(t: Seq<u8>, ms: Seq<(int, int, int)>, k: int) -> Seq<PumlView>
    decreases ms.len() - k,
{
    if k < 0 || k >= ms.len() {
        Seq::empty()
    } else if ms[k].2 == 1 {
        pair_from(t, ms, k + 1)
    } else if k + 1 >= ms.len() {
        Seq::empty()
    } else {
        seq![
            PumlView {
                start: ms[k].0,
                end: ms[k + 1].1,
                contents: t.subrange(ms[k].1, ms[k + 1].0),
                ignore: ms[k].2 == 2,
            },
        ] + pair_from(t, ms, k + 2)
    }
}

/// All diagram blocks of `t`, leftmost first.
pub open spec fn pumls_of(t: Seq<u8>) -> Seq<PumlView> {
    pair_from(t, delimiter_hits(t), 0)
}

/// Well-formedness of a block list over `t`: spans lie inside `t`, are
/// non-empty, ordered and non-overlapping.
pub open spec fn pumls_wf(t: Seq<u8>, ps: Seq<PumlView>) -> bool {
    forall|j: int|
        #![trigger ps[j]]
        0 <= j < ps.len() ==> 0 <= ps[j].start && ps[j].start < ps[j].end && ps[j].end <= t.len()
            && (j + 1 < ps.len() ==> ps[j].end <= ps[j + 1].start)
}

/// Pairing a well-formed occurrence list yields a well-formed block list
/// whose first block starts at or after entry `k`'s offset.
pub proof fn lemma_pair_wf(t: Seq<u8>, ms: Seq<(int, int, int)>, k: int)
    requires
        hits_wf(t, ms),
        0 <= k,
    ensures
        pumls_wf(t, pair_from(t, ms, k)),
        pair_from(t, ms, k).len() > 0 && k < ms.len() ==> ms[k].0 <= pair_from(t, ms, k)[0].start,
    decreases ms.len() - k,
{
    let ps = pair_from(t, ms, k);
    if k < 0 || k >= ms.len() {
    } else if ms[k].2 == 1 {
        lemma_pair_wf(t, ms, k + 1);
        if pair_from(t, ms, k + 1).len() > 0 {
            assert(ms[k].0 < ms[k].1 && ms[k].1 <= ms[k + 1].0);
        }
    } else if k + 1 >= ms.len() {
    } else {
        lemma_pair_wf(t, ms, k + 2);
        let head = PumlView {
            start: ms[k].0,
            end: ms[k + 1].1,
            contents: t.subrange(ms[k].1, ms[k + 1].0),
            ignore: ms[k].2 == 2,
        };
        let rest = pair_from(t, ms, k + 2);
        assert forall|j: int| 0 <= j < ps.len() implies 0 <= ps[j].start && ps[j].start
            < ps[j].end && ps[j].end <= t.len() && (j + 1 < ps.len() ==> ps[j].end <= ps[j
            + 1].start) by {
            if j == 0 {
                assert(ps[0] == head);
                if 1 < ps.len() {
                    assert(ps[1] == rest[0]);
                    assert(k + 2 < ms.len());
                    assert(ms[k + 1].1 <= ms[k + 2].0);
                }
            } else {
                assert(ps[j] == rest[j - 1]);
                if j + 1 < ps.len() {
                    assert(ps[j + 1] == rest[j]);
                }
            }
        }
    }
}

/// An opening delimiter that no later delimiter follows yields no block at
/// all: pairing stops there, so no replacement is emitted for it and no
/// trailing text is taken as block content.
pub proof fn lemma_unterminated_opener_dropped(t: Seq<u8>, ms: Seq<(int, int, int)>, k: int)
    requires
        0 <= k,
        k == ms.len() - 1,
        ms[k].2 != 1,
    ensures
        pair_from(t, ms, k) == Seq::<PumlView>::empty(),
{
}

/// The blocks of `t` are well formed.
pub proof fn lemma_pumls_wf(t: Seq<u8>)
    ensures
        pumls_wf(t, pumls_of(t)),
{
    lemma_hits_wf(t, 0);
    lemma_pair_wf(t, delimiter_hits(t), 0);
}

/// Scans `text` and produces its diagram blocks, leftmost first.
pub fn find_pumls(text: &[u8]) -> (r: Vec<Puml>)
    ensures
        r@.map_values(|p: Puml| p@) == pumls_of(text@),
{
    let hits = delimiter_search(text);
    let ghost ms = delimiter_hits(text@);
    proof {
        lemma_hits_wf(text@, 0);
    }
    let mut out: Vec<Puml> = Vec::new();
    let mut k: usize = 0;
    while k < hits.len()
        invariant
            hits@.map_values(|h: Hit| h@) == ms,
            ms == delimiter_hits(text@),
            hits_wf(text@, ms),
            k <= hits@.len(),
            pumls_of(text@) == out@.map_values(|p: Puml| p@) + pair_from(text@, ms, k as int),
        decreases hits@.len() - k,
    {
        let h = hits[k];
        proof {
            assert(h@ == ms[k as int]);
        }
        if h.pat == 1 {
            k += 1;
        } else if k + 1 >= hits.len() {
            proof {
                assert(pair_from(text@, ms, k as int) == Seq::<PumlView>::empty());
                assert(pair_from(text@, ms, hits@.len() as int) == Seq::<PumlView>::empty());
            }
            k = hits.len();
        } else {
            let h2 = hits[k + 1];
            proof {
                assert(h2@ == ms[k as int + 1]);
            }
            let contents = slice_to_vec(slice_subrange(text, h.end, h2.start));
            let p = Puml { start: h.start, end: h2.end, contents, ignore: h.pat == 2 };
            let ghost out0 = out@;
            let ghost pv = PumlView {
                start: ms[k as int].0,
                end: ms[k as int + 1].1,
                contents: text@.subrange(ms[k as int].1, ms[k as int + 1].0),
                ignore: ms[k as int].2 == 2,
            };
            proof {
                assert(p@ == pv);
                assert(pair_from(text@, ms, k as int) == seq![pv] + pair_from(
                    text@,
                    ms,
                    k as int + 2,
                ));
            }
            out.push(p);
            proof {
                let f = |q: Puml| q@;
                assert(out@ == out0.push(p));
                assert(out@.map_values(f) =~= out0.map_values(f).push(p@));
                assert(out0.map_values(f) + (seq![pv] + pair_from(text@, ms, k as int + 2))
                    =~= out@.map_values(f) + pair_from(text@, ms, k as int + 2));
            }
            k += 2;
        }
    }
    proof {
        assert(out@.map_values(|p: Puml| p@) + pair_from(text@, ms, k as int) =~= out@.map_values(
            |p: Puml| p@,
        ));
    }
    out
}

} // verus!
