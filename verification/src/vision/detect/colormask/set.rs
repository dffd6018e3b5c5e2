use vstd::prelude::*;

use super::params::validate_spec;
use super::{ColormaskBgr, ColormaskCam, ColormaskError, ColormaskParams};
use crate::camera;

verus! {

/// The multi-camera colour-mask bundle (`data/colormask.json`).
#[derive(Debug, Clone, PartialEq, Eq)]
pub struct ColormaskSet {
    pub cameras: Vec<ColormaskCam>,
}

impl View for ColormaskSet {
    type V = Seq<ColormaskCam>;

    open spec fn view(&self) -> Seq<ColormaskCam> {
        self.cameras@
    }
}

impl Default for ColormaskSet {
    fn default() -> (r: Self)
        ensures
            r@ == Seq::<ColormaskCam>::empty(),
    {
        ColormaskSet { cameras: Vec::new() }
    }
}

/// Index of the first entry at or after `from` that belongs to camera `id`.
pub open spec fn find_camera(s: Seq<ColormaskCam>, id: camera::Id, from: int) -> Option<int>
    decreases s.len() - from,
{
    if from < 0 || from >= s.len() {
        None
    } else if s[from].camera_id == id {
        Some(from)
    } else {
        find_camera(s, id, from + 1)
    }
}

/// The entry of camera `id`: the first one that names it.
pub open spec fn lookup(s: Seq<ColormaskCam>, id: camera::Id) -> Option<ColormaskCam> {
    match find_camera(s, id, 0) {
        Some(i) => Some(s[i]),
        None => None,
    }
}

/// Entries in order of camera id.
pub open spec fn sorted_by_id(s: Seq<ColormaskCam>) -> bool {
    forall|i: int, j: int|
        0 <= i <= j < s.len() ==> #[trigger] s[i].camera_id.0 <= #[trigger] s[j].camera_id.0
}

/// How many entries from `j` on, without a break, have an id not above `key`.
pub open spec fn leading_from(s: Seq<ColormaskCam>, key: u32, j: int) -> int
    decreases s.len() - j,
{
    if j < 0 || j >= s.len() {
        0
    } else if s[j].camera_id.0 <= key {
        1 + leading_from(s, key, j + 1)
    } else {
        0
    }
}

/// `c` placed after the leading entries whose id is not above its own.
pub open spec fn insert_sorted(s: Seq<ColormaskCam>, c: ColormaskCam) -> Seq<ColormaskCam> {
    s.insert(leading_from(s, c.camera_id.0, 0), c)
}

/// The stable sort by camera id: equal ids keep their relative order.
pub open spec fn sort_by_id(s: Seq<ColormaskCam>) -> Seq<ColormaskCam>
    decreases s.len(),
{
    if s.len() == 0 {
        s
    } else {
        insert_sorted(sort_by_id(s.drop_last()), s.last())
    }
}

/// The bundle after writing `c`: its camera's entry replaced in place, or `c`
/// appended and the whole bundle sorted by camera id.
pub open spec fn upsert_spec(s: Seq<ColormaskCam>, c: ColormaskCam) -> Seq<ColormaskCam> {
    match find_camera(s, c.camera_id, 0) {
        Some(i) => s.update(i, c),
        None => sort_by_id(s.push(c)),
    }
}

/// Index of the first entry from `from` on whose parameters are refused.
pub open spec fn first_invalid(s: Seq<ColormaskCam>, from: int) -> Option<int>
    decreases s.len() - from,
{
    if from < 0 || from >= s.len() {
        None
    } else if validate_spec(s[from].params) is Err {
        Some(from)
    } else {
        first_invalid(s, from + 1)
    }
}

/// Every entry's parameters are accepted, or the first refusal.
pub open spec fn validate_set_spec(s: Seq<ColormaskCam>) -> Result<(), ColormaskError> {
    match first_invalid(s, 0) {
        Some(i) => validate_spec(s[i].params),
        None => Ok(()),
    }
}

proof fn lemma_find_some(s: Seq<ColormaskCam>, id: camera::Id, from: int)
    requires
        find_camera(s, id, from) is Some,
    ensures
        ({
            let i = find_camera(s, id, from)->0;
            &&& 0 <= from <= i < s.len()
            &&& s[i].camera_id == id
            &&& forall|j: int| from <= j < i ==> s[j].camera_id != id
        }),
    decreases s.len() - from,
{
    if s[from].camera_id != id {
        lemma_find_some(s, id, from + 1);
    }
}

proof fn lemma_find_none(s: Seq<ColormaskCam>, id: camera::Id, from: int)
    requires
        0 <= from,
        find_camera(s, id, from) is None,
    ensures
        forall|j: int| from <= j < s.len() ==> s[j].camera_id != id,
    decreases s.len() - from,
{
    if from < s.len() {
        lemma_find_none(s, id, from + 1);
    }
}

proof fn lemma_find_witness(s: Seq<ColormaskCam>, id: camera::Id, from: int, i: int)
    requires
        0 <= from <= i < s.len(),
        s[i].camera_id == id,
        forall|j: int| from <= j < i ==> s[j].camera_id != id,
    ensures
        find_camera(s, id, from) == Some(i),
    decreases i - from,
{
    if from < i {
        lemma_find_witness(s, id, from + 1, i);
    }
}

proof fn lemma_find_absent(s: Seq<ColormaskCam>, id: camera::Id, from: int)
    requires
        0 <= from,
        forall|j: int| from <= j < s.len() ==> s[j].camera_id != id,
    ensures
        find_camera(s, id, from) is None,
    decreases s.len() - from,
{
    if from < s.len() {
        lemma_find_absent(s, id, from + 1);
    }
}

proof fn lemma_leading_bounds(s: Seq<ColormaskCam>, key: u32, j: int)
    requires
        0 <= j <= s.len(),
    ensures
        0 <= leading_from(s, key, j) <= s.len() - j,
        forall|m: int| j <= m < j + leading_from(s, key, j) ==> s[m].camera_id.0 <= key,
        j + leading_from(s, key, j) < s.len() ==> s[j + leading_from(s, key, j)].camera_id.0 > key,
    decreases s.len() - j,
{
    if j < s.len() && s[j].camera_id.0 <= key {
        lemma_leading_bounds(s, key, j + 1);
    }
}

/// In a sorted bundle the leading run of ids not above `key` reaches past every such id.
proof fn lemma_leading_sorted(s: Seq<ColormaskCam>, key: u32)
    requires
        sorted_by_id(s),
    ensures
        forall|m: int|
            0 <= m < s.len() && s[m].camera_id.0 <= key ==> m < leading_from(s, key, 0),
{
    lemma_leading_bounds(s, key, 0);
    let p = leading_from(s, key, 0);
    assert forall|m: int| 0 <= m < s.len() && s[m].camera_id.0 <= key implies m < p by {
        if m >= p {
            assert(s[p].camera_id.0 <= s[m].camera_id.0);
        }
    }
}

proof fn lemma_insert_sorted_keeps_order(r: Seq<ColormaskCam>, c: ColormaskCam)
    requires
        sorted_by_id(r),
    ensures
        sorted_by_id(insert_sorted(r, c)),
        insert_sorted(r, c).len() == r.len() + 1,
{
    let key = c.camera_id.0;
    lemma_leading_bounds(r, key, 0);
    let p = leading_from(r, key, 0);
    let res = insert_sorted(r, c);
    assert(res.len() == r.len() + 1);
    assert forall|i: int, j: int| 0 <= i <= j < res.len() implies #[trigger] res[i].camera_id.0
        <= #[trigger] res[j].camera_id.0 by {
        if i < p && j < p {
            assert(res[i] == r[i] && res[j] == r[j]);
        } else if i < p && j == p {
            assert(res[i] == r[i]);
        } else if i < p && j > p {
            assert(res[i] == r[i] && res[j] == r[j - 1]);
        } else if i == p && j == p {
        } else if i == p && j > p {
            assert(res[j] == r[j - 1]);
            assert(r[p].camera_id.0 <= r[j - 1].camera_id.0);
        } else {
            assert(res[i] == r[i - 1] && res[j] == r[j - 1]);
        }
    }
}

/// The stable sort is ordered by id and keeps every entry.
pub proof fn lemma_sort_by_id_sorted(s: Seq<ColormaskCam>)
    ensures
        sorted_by_id(sort_by_id(s)),
        sort_by_id(s).len() == s.len(),
    decreases s.len(),
{
    if s.len() > 0 {
        lemma_sort_by_id_sorted(s.drop_last());
        lemma_insert_sorted_keeps_order(sort_by_id(s.drop_last()), s.last());
    }
}

proof fn lemma_lookup_insert_sorted(r: Seq<ColormaskCam>, c: ColormaskCam, k: camera::Id)
    requires
        sorted_by_id(r),
    ensures
        lookup(insert_sorted(r, c), k) == (if c.camera_id == k && lookup(r, k) is None {
            Some(c)
        } else {
            lookup(r, k)
        }),
{
    let key = c.camera_id.0;
    lemma_leading_bounds(r, key, 0);
    lemma_leading_sorted(r, key);
    let p = leading_from(r, key, 0);
    let res = insert_sorted(r, c);
    if find_camera(r, k, 0) is Some {
        lemma_find_some(r, k, 0);
        let i = find_camera(r, k, 0)->0;
        if c.camera_id == k {
            assert(i < p);
            assert(res[i] == r[i]);
            lemma_find_witness(res, k, 0, i);
        } else if i < p {
            assert(res[i] == r[i]);
            assert forall|j: int| 0 <= j < i implies res[j].camera_id != k by {
                assert(res[j] == r[j]);
            }
            lemma_find_witness(res, k, 0, i);
        } else {
            assert(res[i + 1] == r[i]);
            assert forall|j: int| 0 <= j < i + 1 implies res[j].camera_id != k by {
                if j < p {
                    assert(res[j] == r[j]);
                } else if j > p {
                    assert(res[j] == r[j - 1]);
                }
            }
            lemma_find_witness(res, k, 0, i + 1);
        }
    } else {
        lemma_find_none(r, k, 0);
        if c.camera_id == k {
            assert forall|j: int| 0 <= j < p implies res[j].camera_id != k by {
                assert(res[j] == r[j]);
            }
            lemma_find_witness(res, k, 0, p);
        } else {
            assert forall|j: int| 0 <= j < res.len() implies res[j].camera_id != k by {
                if j < p {
                    assert(res[j] == r[j]);
                } else if j > p {
                    assert(res[j] == r[j - 1]);
                }
            }
            lemma_find_absent(res, k, 0);
        }
    }
}

proof fn lemma_lookup_push(s: Seq<ColormaskCam>, c: ColormaskCam, k: camera::Id)
    ensures
        lookup(s.push(c), k) == (if lookup(s, k) is None && c.camera_id == k {
            Some(c)
        } else {
            lookup(s, k)
        }),
{
    let t = s.push(c);
    if find_camera(s, k, 0) is Some {
        lemma_find_some(s, k, 0);
        let i = find_camera(s, k, 0)->0;
        lemma_find_witness(t, k, 0, i);
    } else {
        lemma_find_none(s, k, 0);
        if c.camera_id == k {
            lemma_find_witness(t, k, 0, s.len() as int);
        } else {
            lemma_find_absent(t, k, 0);
        }
    }
}

/// Sorting by id does not change which entry each camera resolves to.
pub proof fn lemma_lookup_sort_by_id(s: Seq<ColormaskCam>, k: camera::Id)
    ensures
        lookup(sort_by_id(s), k) == lookup(s, k),
    decreases s.len(),
{
    if s.len() > 0 {
        let front = s.drop_last();
        lemma_lookup_sort_by_id(front, k);
        lemma_sort_by_id_sorted(front);
        lemma_lookup_insert_sorted(sort_by_id(front), s.last(), k);
        lemma_lookup_push(front, s.last(), k);
        assert(front.push(s.last()) =~= s);
    }
}

/// Writing a camera's mask and reading it back gives what was written; every
/// other camera still reads what it read before.
pub proof fn lemma_upsert_then_lookup(s: Seq<ColormaskCam>, c: ColormaskCam, k: camera::Id)
    ensures
        lookup(upsert_spec(s, c), k) == (if k == c.camera_id {
            Some(c)
        } else {
            lookup(s, k)
        }),
{
    let id = c.camera_id;
    if find_camera(s, id, 0) is Some {
        lemma_find_some(s, id, 0);
        let i = find_camera(s, id, 0)->0;
        let u = s.update(i, c);
        if k == id {
            lemma_find_witness(u, k, 0, i);
        } else if find_camera(s, k, 0) is Some {
            lemma_find_some(s, k, 0);
            let i2 = find_camera(s, k, 0)->0;
            assert(i2 != i);
            lemma_find_witness(u, k, 0, i2);
        } else {
            lemma_find_none(s, k, 0);
            lemma_find_absent(u, k, 0);
        }
    } else {
        lemma_lookup_sort_by_id(s.push(c), k);
        lemma_lookup_push(s, c, k);
        if k == id {
            assert(lookup(s, k) is None);
        }
    }
}

/// A bundle kept in camera order stays in camera order after a write, and a
/// write adds an entry only for a camera it did not have.
pub proof fn lemma_upsert_keeps_order(s: Seq<ColormaskCam>, c: ColormaskCam)
    ensures
        sorted_by_id(s) ==> sorted_by_id(upsert_spec(s, c)),
        upsert_spec(s, c).len() == s.len() + (if lookup(s, c.camera_id) is Some {
            0int
        } else {
            1int
        }),
{
    if find_camera(s, c.camera_id, 0) is Some {
        lemma_find_some(s, c.camera_id, 0);
        let i = find_camera(s, c.camera_id, 0)->0;
        let u = s.update(i, c);
        if sorted_by_id(s) {
            assert forall|a: int, b: int| 0 <= a <= b < u.len() implies #[trigger] u[a].camera_id.0
                <= #[trigger] u[b].camera_id.0 by {
                assert(s[a].camera_id.0 <= s[b].camera_id.0);
            }
        }
    } else {
        lemma_sort_by_id_sorted(s.push(c));
    }
}

/// Number of leading entries whose id is not above `key`.
fn leading_count(s: &Vec<ColormaskCam>, key: u32) -> (r: usize)
    ensures
        r == leading_from(s@, key, 0),
{
    let mut j: usize = 0;
    while j < s.len() && s[j].camera_id.0 <= key
        invariant
            j <= s.len(),
            leading_from(s@, key, 0) == j + leading_from(s@, key, j as int),
        decreases s.len() - j,
    {
        j = j + 1;
    }
    j
}

/// The stable sort by camera id.
fn sort_by_camera_id(v: Vec<ColormaskCam>) -> (r: Vec<ColormaskCam>)
    ensures
        r@ == sort_by_id(v@),
{
    let ghost s = v@;
    let n = v.len();
    let mut rest = v;
    let mut out: Vec<ColormaskCam> = Vec::new();
    let mut i: usize = 0;
    assert(s.take(0) =~= Seq::<ColormaskCam>::empty());
    while i < n
        invariant
            n == s.len(),
            i <= n,
            rest@ == s.skip(i as int),
            out@ == sort_by_id(s.take(i as int)),
        decreases n - i,
    {
        let c = rest.remove(0);
        let pos = leading_count(&out, c.camera_id.0);
        proof {
            lemma_leading_bounds(out@, c.camera_id.0, 0);
            assert(s.take(i + 1).drop_last() =~= s.take(i as int));
            assert(s.skip(i as int).drop_first() =~= s.skip(i + 1));
        }
        out.insert(pos, c);
        i = i + 1;
    }
    assert(s.take(n as int) =~= s);
    out
}

impl ColormaskSet {
    /// Index of camera `camera_id`'s entry.
    fn find(&self, camera_id: camera::Id) -> (r: Option<usize>)
        ensures
            r matches Some(i) ==> find_camera(self@, camera_id, 0) == Some(i as int) && i
                < self@.len(),
            r is None ==> find_camera(self@, camera_id, 0) is None,
    {
        let mut i: usize = 0;
        while i < self.cameras.len()
            invariant
                i <= self.cameras.len(),
                find_camera(self@, camera_id, 0) == find_camera(self@, camera_id, i as int),
            decreases self.cameras.len() - i,
        {
            if self.cameras[i].camera_id == camera_id {
                return Some(i);
            }
            i = i + 1;
        }
        None
    }

    /// The ranges of camera `camera_id`.
    pub fn params(&self, camera_id: camera::Id) -> (r: Option<&ColormaskParams>)
        ensures
            match r {
                Some(p) => lookup(self@, camera_id) matches Some(c) && *p == c.params,
                None => lookup(self@, camera_id) is None,
            },
    {
        match self.find(camera_id) {
            Some(i) => Some(&self.cameras[i].params),
            None => None,
        }
    }

    /// The colour samples of camera `camera_id`.
    pub fn samples(&self, camera_id: camera::Id) -> (r: Option<&[ColormaskBgr]>)
        ensures
            match r {
                Some(p) => lookup(self@, camera_id) matches Some(c) && p@ == c.samples@,
                None => lookup(self@, camera_id) is None,
            },
    {
        match self.find(camera_id) {
            Some(i) => Some(self.cameras[i].samples.as_slice()),
            None => None,
        }
    }

    /// Replaces camera `camera_id`'s entry in place, or adds one and keeps the
    /// bundle sorted by camera id.
    pub fn upsert(
        &mut self,
        camera_id: camera::Id,
        params: ColormaskParams,
        samples: Vec<ColormaskBgr>,
    )
        ensures
            final(self)@ == upsert_spec(old(self)@, (ColormaskCam { camera_id, params, samples })),
    {
        let cam = ColormaskCam { camera_id, params, samples };
        match self.find(camera_id) {
            Some(i) => {
                self.cameras.set(i, cam);
            },
            None => {
                let mut all: Vec<ColormaskCam> = Vec::new();
                std::mem::swap(&mut all, &mut self.cameras);
                all.push(cam);
                self.cameras = sort_by_camera_id(all);
            },
        }
    }

    /// Every camera's ranges are accepted; otherwise the first refusal.
    pub fn validate(&self) -> (r: Result<(), ColormaskError>)
        ensures
            r == validate_set_spec(self@),
    {
        let mut i: usize = 0;
        while i < self.cameras.len()
            invariant
                i <= self.cameras.len(),
                first_invalid(self@, 0) == first_invalid(self@, i as int),
            decreases self.cameras.len() - i,
        {
            let checked = self.cameras[i].params.validate();
            if checked.is_err() {
                return checked;
            }
            i = i + 1;
        }
        Ok(())
    }
}

/// The bundle that was found, once every camera's ranges are accepted; an
/// empty bundle when none was found (the start of an upsert session).
pub fn load_colormask_set_or_empty(found: Option<ColormaskSet>) -> (r: Result<
    ColormaskSet,
    ColormaskError,
>)
    ensures
        match found {
            None => r matches Ok(set) && set@.len() == 0,
            Some(set) => match validate_set_spec(set@) {
                Ok(_) => r matches Ok(loaded) && loaded@ == set@,
                Err(e) => r == Err::<ColormaskSet, ColormaskError>(e),
            },
        },
{
    match found {
        None => Ok(ColormaskSet::default()),
        Some(set) => match set.validate() {
            Ok(()) => Ok(set),
            Err(e) => Err(e),
        },
    }
}

} // verus!
