use vstd::prelude::*;
use vstd::slice::{slice_index_get, slice_subrange, slice_to_vec};

use crate::scan::bytes_equal;
use crate::text::{extend_bytes, find_byte, find_byte_at, lemma_find_byte_props, matches_at, occurs_at};

verus! {

/// The directive opener, `{{#plantuml`.
pub open spec fn dir_prefix() -> Seq<u8> {
    seq![123u8, 123u8, 35u8, 112u8, 108u8, 97u8, 110u8, 116u8, 117u8, 109u8, 108u8]
}

/// The escaped directive opener: a backslash before `{{#plantuml`.
pub open spec fn esc_prefix() -> Seq<u8> {
    seq![92u8, 123u8, 123u8, 35u8, 112u8, 108u8, 97u8, 110u8, 116u8, 117u8, 109u8, 108u8]
}

/// Horizontal or vertical whitespace inside a directive.
pub open spec fn is_ws(b: u8) -> bool {
    b == 32 || b == 9 || b == 10 || b == 13
}

/// First offset in `[k, end)` holding a non-whitespace byte, or `end`.
pub open spec fn skip_ws(t: Seq<u8>, k: int, end: int) -> int
    decreases end - k,
{
    if k < 0 || k >= end || end > t.len() {
        k
    } else if is_ws(t[k]) {
        skip_ws(t, k + 1, end)
    } else {
        k
    }
}

/// The offset of the closing pair's first `}`: the first `}` at or after
/// `k`, provided another `}` follows it directly.
pub open spec fn close_at(t: Seq<u8>, k: int) -> Option<int> {
    match find_byte(t, 125u8, k) {
        Some(j) => if k <= j && j + 1 < t.len() && t[j + 1] == 125 {
            Some(j)
        } else {
            None
        },
        None => None,
    }
}

/// One directive occurrence: its span in the source text, the referenced
/// relative path (empty for the escaped form), and whether it is the
/// escaped form that is passed through with its backslash removed.
#[derive(Clone, Debug)]
pub struct Directive {
    pub start: usize,
    pub end: usize,
    pub path: Vec<u8>,
    pub escaped: bool,
}

/// The mathematical shape of one directive occurrence.
pub ghost struct DirView {
    pub start: int,
    pub end: int,
    pub path: Seq<u8>,
    pub escaped: bool,
}

impl View for Directive {
    type V = DirView;

    open spec fn view(&self) -> DirView {
        DirView {
            start: self.start as int,
            end: self.end as int,
            path: self.path@,
            escaped: self.escaped,
        }
    }
}

/// All directive occurrences at or after `i`, leftmost first.  An escaped
/// opener spans from its backslash to the closing `}}`.  A plain opener
/// must be followed, before the first `}`, by a path that is non-empty once
/// leading whitespace is dropped, and that first `}` must open a `}}` pair;
/// otherwise no occurrence starts here.  The search resumes after a found
/// occurrence, so occurrences never overlap.
pub open spec fn dirs_from(t: Seq<u8>, i: int) -> Seq<DirView>
    decreases t.len() - i,
{
    if i < 0 || i + 11 > t.len() {
        Seq::empty()
    } else if occurs_at(t, esc_prefix(), i) {
        match close_at(t, i + 12) {
            Some(j) => seq![
                DirView { start: i, end: j + 2, path: Seq::empty(), escaped: true },
            ] + dirs_from(t, j + 2),
            None => dirs_from(t, i + 1),
        }
    } else if occurs_at(t, dir_prefix(), i) {
        match close_at(t, i + 11) {
            Some(j) => {
                let p0 = skip_ws(t, i + 11, j);
                if p0 < j {
                    seq![
                        DirView { start: i, end: j + 2, path: t.subrange(p0, j), escaped: false },
                    ] + dirs_from(t, j + 2)
                } else {
                    dirs_from(t, i + 1)
                }
            },
            None => dirs_from(t, i + 1),
        }
    } else {
        dirs_from(t, i + 1)
    }
}

/// All directive occurrences of `t`, leftmost first.
pub open spec fn dirs_of(t: Seq<u8>) -> Seq<DirView> {
    dirs_from(t, 0)
}

/// Well-formedness of a directive list over `t`: spans lie inside `t`, are
/// ordered and non-overlapping, and an escaped span covers at least its
/// backslash.
pub open spec fn dirs_wf(t: Seq<u8>, ds: Seq<DirView>) -> bool {
    forall|j: int|
        #![trigger ds[j]]
        0 <= j < ds.len() ==> 0 <= ds[j].start && ds[j].start + 1 < ds[j].end && ds[j].end
            <= t.len() && (j + 1 < ds.len() ==> ds[j].end <= ds[j + 1].start)
}

/// The directive list that `dirs_from` produces is well formed and starts
/// at or after `i`.
pub proof fn lemma_dirs_wf(t: Seq<u8>, i: int)
    ensures
        dirs_wf(t, dirs_from(t, i)),
        dirs_from(t, i).len() > 0 ==> i <= dirs_from(t, i)[0].start,
    decreases t.len() - i,
{
    if i < 0 || i + 11 > t.len() {
    } else if occurs_at(t, esc_prefix(), i) {
        match close_at(t, i + 12) {
            Some(j) => {
                lemma_find_byte_props(t, 125u8, i + 12);
                lemma_dirs_wf(t, j + 2);
                lemma_dirs_cons(
                    t,
                    dirs_from(t, i),
                    DirView { start: i, end: j + 2, path: Seq::empty(), escaped: true },
                    dirs_from(t, j + 2),
                    j + 2,
                );
            },
            None => {
                lemma_dirs_wf(t, i + 1);
            },
        }
    } else if occurs_at(t, dir_prefix(), i) {
        match close_at(t, i + 11) {
            Some(j) => {
                let p0 = skip_ws(t, i + 11, j);
                if p0 < j {
                    lemma_find_byte_props(t, 125u8, i + 11);
                    lemma_dirs_wf(t, j + 2);
                    lemma_dirs_cons(
                        t,
                        dirs_from(t, i),
                        DirView { start: i, end: j + 2, path: t.subrange(p0, j), escaped: false },
                        dirs_from(t, j + 2),
                        j + 2,
                    );
                } else {
                    lemma_dirs_wf(t, i + 1);
                }
            },
            None => {
                lemma_dirs_wf(t, i + 1);
            },
        }
    } else {
        lemma_dirs_wf(t, i + 1);
    }
}

/// Prepending one well-placed directive to a well-formed list keeps the
/// list well formed.
proof fn lemma_dirs_cons(
    t: Seq<u8>,
    ds: Seq<DirView>,
    head: DirView,
    rest: Seq<DirView>,
    bound: int,
)
    requires
        ds == seq![head] + rest,
        dirs_wf(t, rest),
        0 <= head.start && head.start + 1 < head.end && head.end <= t.len(),
        head.end <= bound,
        rest.len() > 0 ==> bound <= rest[0].start,
    ensures
        dirs_wf(t, ds),
{
    assert forall|j: int| 0 <= j < ds.len() implies 0 <= ds[j].start && ds[j].start + 1
        < ds[j].end && ds[j].end <= t.len() && (j + 1 < ds.len() ==> ds[j].end <= ds[j
        + 1].start) by {
        if j == 0 {
            if 1 < ds.len() {
                assert(ds[1] == rest[0]);
            }
        } else {
            assert(ds[j] == rest[j - 1]);
            if j + 1 < ds.len() {
                assert(ds[j + 1] == rest[j]);
            }
        }
    }
}

/// The escaped opener bytes, backslash first.
fn esc_prefix_bytes() -> (r: Vec<u8>)
    ensures
        r@ == esc_prefix(),
{
    let mut v: Vec<u8> = Vec::new();
    v.push(92);
    v.push(123);
    v.push(123);
    v.push(35);
    v.push(112);
    v.push(108);
    v.push(97);
    v.push(110);
    v.push(116);
    v.push(117);
    v.push(109);
    v.push(108);
    proof {
        assert(v@ =~= esc_prefix());
    }
    v
}

/// The plain opener bytes.
fn dir_prefix_bytes() -> (r: Vec<u8>)
    ensures
        r@ == dir_prefix(),
{
    let mut v: Vec<u8> = Vec::new();
    v.push(123);
    v.push(123);
    v.push(35);
    v.push(112);
    v.push(108);
    v.push(97);
    v.push(110);
    v.push(116);
    v.push(117);
    v.push(109);
    v.push(108);
    proof {
        assert(v@ =~= dir_prefix());
    }
    v
}

/// Finds the closing pair's first `}` at or after `k`, as `close_at` does.
fn find_close(text: &[u8], k: usize) -> (r: Option<usize>)
    ensures
        match r {
            Some(j) => close_at(text@, k as int) == Some(j as int) && k <= j && j + 1 < text@.len(),
            None => close_at(text@, k as int) == None::<int>,
        },
{
    proof {
        lemma_find_byte_props(text@, 125u8, k as int);
    }
    let n = text.len();
    match find_byte_at(text, 125, k) {
        Some(j) => {
            if j + 1 < n && *slice_index_get(text, j + 1) == 125 {
                Some(j)
            } else {
                None
            }
        },
        None => None,
    }
}

/// Skips leading whitespace in `[k, end)`.
fn skip_ws_at(text: &[u8], k: usize, end: usize) -> (r: usize)
    requires
        k <= end <= text@.len(),
    ensures
        r == skip_ws(text@, k as int, end as int),
        k <= r <= end,
{
    let mut m: usize = k;
    while m < end
        invariant
            k <= m <= end <= text@.len(),
            skip_ws(text@, k as int, end as int) == skip_ws(text@, m as int, end as int),
        decreases end - m,
    {
        if !is_ws_byte(*slice_index_get(text, m)) {
            return m;
        }
        m += 1;
    }
    m
}

/// Whether a byte is directive whitespace.
fn is_ws_byte(b: u8) -> (r: bool)
    ensures
        r == is_ws(b),
{
    b == 32 || b == 9 || b == 10 || b == 13
}

/// Scans `text` and produces its directive occurrences, leftmost first.
pub fn find_directives(text: &[u8]) -> (r: Vec<Directive>)
    ensures
        r@.map_values(|d: Directive| d@) == dirs_of(text@),
{
    let esc = esc_prefix_bytes();
    let plain = dir_prefix_bytes();
    let mut out: Vec<Directive> = Vec::new();
    let mut i: usize = 0;
    while 11 <= text.len() && i <= text.len() - 11
        invariant
            esc@ == esc_prefix(),
            plain@ == dir_prefix(),
            dirs_of(text@) == out@.map_values(|d: Directive| d@) + dirs_from(text@, i as int),
        decreases text@.len() - i,
    {
        if matches_at(text, esc.as_slice(), i) {
            match find_close(text, i + 12) {
                Some(j) => {
                    let d = Directive { start: i, end: j + 2, path: Vec::new(), escaped: true };
                    let ghost dv = DirView {
                        start: i as int,
                        end: j as int + 2,
                        path: Seq::empty(),
                        escaped: true,
                    };
                    let ghost out0 = out@;
                    proof {
                        assert(d@ == dv);
                        assert(dirs_from(text@, i as int) == seq![dv] + dirs_from(
                            text@,
                            j as int + 2,
                        ));
                    }
                    out.push(d);
                    proof {
                        let f = |q: Directive| q@;
                        assert(out@.map_values(f) =~= out0.map_values(f).push(dv));
                        assert(out0.map_values(f) + (seq![dv] + dirs_from(text@, j as int + 2))
                            =~= out@.map_values(f) + dirs_from(text@, j as int + 2));
                    }
                    i = j + 2;
                },
                None => {
                    i += 1;
                },
            }
        } else if matches_at(text, plain.as_slice(), i) {
            match find_close(text, i + 11) {
                Some(j) => {
                    let p0 = skip_ws_at(text, i + 11, j);
                    if p0 < j {
                        let path = slice_to_vec(slice_subrange(text, p0, j));
                        let d = Directive { start: i, end: j + 2, path, escaped: false };
                        let ghost dv = DirView {
                            start: i as int,
                            end: j as int + 2,
                            path: text@.subrange(p0 as int, j as int),
                            escaped: false,
                        };
                        let ghost out0 = out@;
                        proof {
                            assert(d@ == dv);
                            assert(dirs_from(text@, i as int) == seq![dv] + dirs_from(
                                text@,
                                j as int + 2,
                            ));
                        }
                        out.push(d);
                        proof {
                            let f = |q: Directive| q@;
                            assert(out@.map_values(f) =~= out0.map_values(f).push(dv));
                            assert(out0.map_values(f) + (seq![dv] + dirs_from(text@, j as int + 2))
                                =~= out@.map_values(f) + dirs_from(text@, j as int + 2));
                        }
                        i = j + 2;
                    } else {
                        i += 1;
                    }
                },
                None => {
                    i += 1;
                },
            }
        } else {
            i += 1;
        }
    }
    proof {
        assert(out@.map_values(|d: Directive| d@) + dirs_from(text@, i as int)
            =~= out@.map_values(|d: Directive| d@));
    }
    out
}

/// The referenced path against a base directory: an absolute path stands
/// alone; against an empty base a relative path stands alone too; otherwise
/// the base, a slash, and the path.
pub open spec fn join_path(base: Seq<u8>, path: Seq<u8>) -> Seq<u8> {
    if path.len() > 0 && path[0] == 47 {
        path
    } else if base.len() == 0 {
        path
    } else {
        base + seq![47u8] + path
    }
}

/// Joins a base directory and a relative path.
pub fn join_path_exec(base: &[u8], path: &[u8]) -> (r: Vec<u8>)
    ensures
        r@ == join_path(base@, path@),
{
    if path.len() > 0 && *slice_index_get(path, 0) == 47 {
        slice_to_vec(path)
    } else if base.len() == 0 {
        slice_to_vec(path)
    } else {
        let mut out = slice_to_vec(base);
        out.push(47);
        extend_bytes(&mut out, path);
        proof {
            assert(out@ =~= base@ + seq![47u8] + path@);
        }
        out
    }
}

/// The offset of the last slash at or before `k`, if any.
pub open spec fn rfind_slash(p: Seq<u8>, k: int) -> Option<int>
    decreases k + 1,
{
    if k < 0 || k >= p.len() {
        if k < 0 {
            None
        } else {
            rfind_slash(p, p.len() - 1)
        }
    } else if p[k] == 47 {
        Some(k)
    } else {
        rfind_slash(p, k - 1)
    }
}

/// The parent directory of a path: everything before its last slash, or
/// empty when it has none.
pub open spec fn parent_dir(p: Seq<u8>) -> Seq<u8> {
    match rfind_slash(p, p.len() - 1) {
        Some(j) => p.subrange(0, j),
        None => Seq::empty(),
    }
}

/// Takes the parent directory of a path.
pub fn parent_dir_exec(p: &[u8]) -> (r: Vec<u8>)
    ensures
        r@ == parent_dir(p@),
{
    let mut k: usize = p.len();
    while k > 0
        invariant
            k <= p@.len(),
            rfind_slash(p@, p@.len() - 1) == rfind_slash(p@, k as int - 1),
        decreases k,
    {
        if *slice_index_get(p, k - 1) == 47 {
            return slice_to_vec(slice_subrange(p, 0, k - 1));
        }
        k -= 1;
    }
    Vec::new()
}

/// The mapping that a list of path/content entries denotes: a later entry
/// for the same path shadows an earlier one.
pub open spec fn map_of(es: Seq<(Vec<u8>, Vec<u8>)>) -> Map<Seq<u8>, Seq<u8>>
    decreases es.len(),
{
    if es.len() == 0 {
        Map::empty()
    } else {
        map_of(es.drop_last()).insert(es.last().0@, es.last().1@)
    }
}

/// The file contents available to directive expansion, keyed by resolved
/// path.
pub struct FileMap {
    pub entries: Vec<(Vec<u8>, Vec<u8>)>,
}

impl View for FileMap {
    type V = Map<Seq<u8>, Seq<u8>>;

    open spec fn view(&self) -> Map<Seq<u8>, Seq<u8>> {
        map_of(self.entries@)
    }
}

impl FileMap {
    /// An empty store.
    pub fn new() -> (r: FileMap)
        ensures
            r@ == Map::<Seq<u8>, Seq<u8>>::empty(),
    {
        FileMap { entries: Vec::new() }
    }

    /// Adds one file's content under its resolved path.
    pub fn insert(&mut self, path: Vec<u8>, content: Vec<u8>)
        ensures
            final(self)@ == old(self)@.insert(path@, content@),
    {
        let ghost es0 = self.entries@;
        self.entries.push((path, content));
        proof {
            assert(self.entries@.drop_last() =~= es0);
        }
    }

    /// Looks up a resolved path, yielding a copy of the stored content.
    pub fn lookup(&self, path: &[u8]) -> (r: Option<Vec<u8>>)
        ensures
            match r {
                Some(v) => self@.contains_key(path@) && v@ == self@[path@],
                None => !self@.contains_key(path@),
            },
    {
        let ghost es = self.entries@;
        let mut k: usize = self.entries.len();
        proof {
            assert(es.subrange(0, es.len() as int) =~= es);
        }
        while k > 0
            invariant
                es == self.entries@,
                k <= es.len(),
                map_of(es).contains_key(path@) == map_of(
                    es.subrange(0, k as int),
                ).contains_key(path@),
                map_of(es).contains_key(path@) ==> map_of(es)[path@] == map_of(
                    es.subrange(0, k as int),
                )[path@],
            decreases k,
        {
            proof {
                assert(es.subrange(0, k as int).drop_last() =~= es.subrange(0, k as int - 1));
                assert(es.subrange(0, k as int).last() == es[k as int - 1]);
            }
            if bytes_equal(self.entries[k - 1].0.as_slice(), path) {
                let v = slice_to_vec(self.entries[k - 1].1.as_slice());
                return Some(v);
            }
            k -= 1;
        }
        proof {
            assert(es.subrange(0, 0) =~= Seq::<(Vec<u8>, Vec<u8>)>::empty());
        }
        None
    }
}

/// How many directive levels are expanded before expansion stops: the depth
/// ceiling that bounds cyclic references.
pub const DEPTH_CEILING: u64 = 10;

/// The expansion of `t` from directive `k` on, with the copy cursor at
/// `cursor` and `fuel` expansion levels left.  An escaped directive is
/// reproduced without its backslash.  A plain directive whose resolved path
/// is present in the store, while fuel remains, is replaced by the
/// expansion of the file's content, one level deeper, against the resolved
/// file's own parent directory; any other directive stays as literal text.
pub open spec fn resolve_from(
    t: Seq<u8>,
    base: Seq<u8>,
    fs: Map<Seq<u8>, Seq<u8>>,
    fuel: nat,
    k: int,
    cursor: int,
) -> Seq<u8>
    decreases fuel, dirs_of(t).len() - k,
{
    let ds = dirs_of(t);
    if k < 0 || k >= ds.len() {
        t.subrange(cursor, t.len() as int)
    } else if ds[k].escaped {
        t.subrange(cursor, ds[k].start) + t.subrange(ds[k].start + 1, ds[k].end) + resolve_from(
            t,
            base,
            fs,
            fuel,
            k + 1,
            ds[k].end,
        )
    } else {
        let rp = join_path(base, ds[k].path);
        if fuel > 0 && fs.contains_key(rp) {
            t.subrange(cursor, ds[k].start) + resolve_from(
                fs[rp],
                parent_dir(rp),
                fs,
                (fuel - 1) as nat,
                0,
                0,
            ) + resolve_from(t, base, fs, fuel, k + 1, ds[k].end)
        } else {
            t.subrange(cursor, ds[k].start) + resolve_from(t, base, fs, fuel, k + 1, ds[k].start)
        }
    }
}

/// The full expansion of `t` against base directory `base` with `fuel`
/// levels left.
pub open spec fn resolve_spec(t: Seq<u8>, base: Seq<u8>, fs: Map<Seq<u8>, Seq<u8>>, fuel: nat) -> Seq<
    u8,
> {
    resolve_from(t, base, fs, fuel, 0, 0)
}

/// Expands the directives of `text` against base directory `base`, reading
/// referenced contents from `fs`, with `fuel` expansion levels left.
pub fn resolve_all(text: &[u8], base: &[u8], fs: &FileMap, fuel: u64) -> (r: Vec<u8>)
    ensures
        r@ == resolve_spec(text@, base@, fs@, fuel as nat),
    decreases fuel,
{
    let dirs = find_directives(text);
    let ghost ds = dirs_of(text@);
    proof {
        lemma_dirs_wf(text@, 0);
    }
    let mut out: Vec<u8> = Vec::new();
    let mut cursor: usize = 0;
    let mut k: usize = 0;
    while k < dirs.len()
        invariant
            dirs@.map_values(|d: Directive| d@) == ds,
            ds == dirs_of(text@),
            dirs_wf(text@, ds),
            k <= dirs@.len(),
            cursor <= text@.len(),
            k < ds.len() ==> cursor <= ds[k as int].start,
            resolve_spec(text@, base@, fs@, fuel as nat) == out@ + resolve_from(
                text@,
                base@,
                fs@,
                fuel as nat,
                k as int,
                cursor as int,
            ),
        decreases dirs@.len() - k,
    {
        let d = &dirs[k];
        proof {
            assert(d@ == ds[k as int]);
        }
        let ghost out0 = out@;
        extend_bytes(&mut out, slice_subrange(text, cursor, d.start));
        if d.escaped {
            extend_bytes(&mut out, slice_subrange(text, d.start + 1, d.end));
            proof {
                assert(resolve_from(text@, base@, fs@, fuel as nat, k as int, cursor as int)
                    == text@.subrange(cursor as int, ds[k as int].start) + text@.subrange(
                    ds[k as int].start + 1,
                    ds[k as int].end,
                ) + resolve_from(text@, base@, fs@, fuel as nat, k as int + 1, ds[k as int].end));
                assert(out@ + resolve_from(
                    text@,
                    base@,
                    fs@,
                    fuel as nat,
                    k as int + 1,
                    ds[k as int].end,
                ) =~= out0 + resolve_from(text@, base@, fs@, fuel as nat, k as int, cursor as int));
            }
            cursor = d.end;
        } else {
            let rp = join_path_exec(base, d.path.as_slice());
            let mut expanded = false;
            if fuel > 0 {
                match fs.lookup(rp.as_slice()) {
                    Some(content) => {
                        let parent = parent_dir_exec(rp.as_slice());
                        let sub = resolve_all(content.as_slice(), parent.as_slice(), fs, fuel - 1);
                        extend_bytes(&mut out, sub.as_slice());
                        expanded = true;
                        proof {
                            assert(resolve_from(
                                text@,
                                base@,
                                fs@,
                                fuel as nat,
                                k as int,
                                cursor as int,
                            ) == text@.subrange(cursor as int, ds[k as int].start) + resolve_from(
                                fs@[rp@],
                                parent_dir(rp@),
                                fs@,
                                (fuel - 1) as nat,
                                0,
                                0,
                            ) + resolve_from(
                                text@,
                                base@,
                                fs@,
                                fuel as nat,
                                k as int + 1,
                                ds[k as int].end,
                            ));
                            assert(out@ + resolve_from(
                                text@,
                                base@,
                                fs@,
                                fuel as nat,
                                k as int + 1,
                                ds[k as int].end,
                            ) =~= out0 + resolve_from(
                                text@,
                                base@,
                                fs@,
                                fuel as nat,
                                k as int,
                                cursor as int,
                            ));
                        }
                        cursor = d.end;
                    },
                    None => {
                    },
                }
            }
            if !expanded {
                proof {
                    assert(resolve_from(text@, base@, fs@, fuel as nat, k as int, cursor as int)
                        == text@.subrange(cursor as int, ds[k as int].start) + resolve_from(
                        text@,
                        base@,
                        fs@,
                        fuel as nat,
                        k as int + 1,
                        ds[k as int].start,
                    ));
                    assert(out@ + resolve_from(
                        text@,
                        base@,
                        fs@,
                        fuel as nat,
                        k as int + 1,
                        ds[k as int].start,
                    ) =~= out0 + resolve_from(
                        text@,
                        base@,
                        fs@,
                        fuel as nat,
                        k as int,
                        cursor as int,
                    ));
                }
                cursor = d.start;
            }
        }
        proof {
            if k as int + 1 < ds.len() {
                assert(ds[k as int].end <= ds[k as int + 1].start);
            }
        }
        k += 1;
    }
    extend_bytes(&mut out, slice_subrange(text, cursor, text.len()));
    out
}

/// Expands the directives of `text` with the standard depth ceiling.
pub fn resolve_directives(text: &[u8], base: &[u8], fs: &FileMap) -> (r: Vec<u8>)
    ensures
        r@ == resolve_spec(text@, base@, fs@, DEPTH_CEILING as nat),
{
    resolve_all(text, base, fs, DEPTH_CEILING)
}

/// Text with no directive occurrence at all is passed through unchanged,
/// whatever the store holds and however much fuel is left.
pub proof fn lemma_no_directives_identity(
    t: Seq<u8>,
    base: Seq<u8>,
    fs: Map<Seq<u8>, Seq<u8>>,
    fuel: nat,
)
    requires
        dirs_of(t).len() == 0,
    ensures
        resolve_spec(t, base, fs, fuel) == t,
{
    assert(t.subrange(0, t.len() as int) =~= t);
}

/// At the depth ceiling nothing more is read: with no expansion level left,
/// the expansion of a text does not depend on the file store at all, so a
/// cyclic reference degrades to its literal directive text instead of
/// expanding further.
pub proof fn lemma_ceiling_reads_nothing(
    t: Seq<u8>,
    base: Seq<u8>,
    fs1: Map<Seq<u8>, Seq<u8>>,
    fs2: Map<Seq<u8>, Seq<u8>>,
)
    ensures
        resolve_spec(t, base, fs1, 0) == resolve_spec(t, base, fs2, 0),
{
    lemma_ceiling_from(t, base, fs1, fs2, 0, 0);
}

/// With no expansion level left, the expansion from directive `k` on is the
/// same against any two stores.
proof fn lemma_ceiling_from(
    t: Seq<u8>,
    base: Seq<u8>,
    fs1: Map<Seq<u8>, Seq<u8>>,
    fs2: Map<Seq<u8>, Seq<u8>>,
    k: int,
    cursor: int,
)
    ensures
        resolve_from(t, base, fs1, 0, k, cursor) == resolve_from(t, base, fs2, 0, k, cursor),
    decreases dirs_of(t).len() - k,
{
    let ds = dirs_of(t);
    if k < 0 || k >= ds.len() {
    } else if ds[k].escaped {
        lemma_ceiling_from(t, base, fs1, fs2, k + 1, ds[k].end);
    } else {
        lemma_ceiling_from(t, base, fs1, fs2, k + 1, ds[k].start);
    }
}

/// The resolved path of each plain directive from `k` on, paired with that
/// path's parent directory, in order.
pub open spec fn paths_from(t: Seq<u8>, base: Seq<u8>, k: int) -> Seq<(Seq<u8>, Seq<u8>)>
    decreases dirs_of(t).len() - k,
{
    let ds = dirs_of(t);
    if k < 0 || k >= ds.len() {
        Seq::empty()
    } else if ds[k].escaped {
        paths_from(t, base, k + 1)
    } else {
        seq![
            (
                join_path(base, ds[k].path),
                parent_dir(join_path(base, ds[k].path)),
            ),
        ] + paths_from(t, base, k + 1)
    }
}

/// Lists the resolved path and its parent directory for every plain
/// directive of `text`, in order: what a caller must be able to read before
/// expansion can replace those directives.
pub fn directive_paths(text: &[u8], base: &[u8]) -> (r: Vec<(Vec<u8>, Vec<u8>)>)
    ensures
        r@.map_values(|e: (Vec<u8>, Vec<u8>)| (e.0@, e.1@)) == paths_from(text@, base@, 0),
{
    let dirs = find_directives(text);
    let ghost ds = dirs_of(text@);
    let mut out: Vec<(Vec<u8>, Vec<u8>)> = Vec::new();
    let mut k: usize = 0;
    while k < dirs.len()
        invariant
            dirs@.map_values(|d: Directive| d@) == ds,
            ds == dirs_of(text@),
            k <= dirs@.len(),
            paths_from(text@, base@, 0) == out@.map_values(|e: (Vec<u8>, Vec<u8>)| (e.0@, e.1@))
                + paths_from(text@, base@, k as int),
        decreases dirs@.len() - k,
    {
        let d = &dirs[k];
        proof {
            assert(d@ == ds[k as int]);
        }
        if !d.escaped {
            let rp = join_path_exec(base, d.path.as_slice());
            let parent = parent_dir_exec(rp.as_slice());
            let ghost out0 = out@;
            let ghost entry = (join_path(base@, ds[k as int].path), parent_dir(join_path(base@, ds[k as int].path)));
            proof {
                assert(paths_from(text@, base@, k as int) == seq![entry] + paths_from(
                    text@,
                    base@,
                    k as int + 1,
                ));
            }
            out.push((rp, parent));
            proof {
                let f = |e: (Vec<u8>, Vec<u8>)| (e.0@, e.1@);
                assert(out@.map_values(f) =~= out0.map_values(f).push(entry));
                assert(out0.map_values(f) + (seq![entry] + paths_from(text@, base@, k as int + 1))
                    =~= out@.map_values(f) + paths_from(text@, base@, k as int + 1));
            }
        }
        k += 1;
    }
    proof {
        assert(out@.map_values(|e: (Vec<u8>, Vec<u8>)| (e.0@, e.1@)) + paths_from(
            text@,
            base@,
            k as int,
        ) =~= out@.map_values(|e: (Vec<u8>, Vec<u8>)| (e.0@, e.1@)));
    }
    out
}

} // verus!
