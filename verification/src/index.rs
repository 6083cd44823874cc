//! The section index: lookup by name, insert-or-overwrite, and the offset
//! maintenance that keeps every recorded range consistent whenever lines
//! are inserted into a buffer.

use vstd::prelude::*;
use vstd::string::*;

use crate::model::{ConfigModel, HyprlandConfig, SecM, SSecM, Section, SourcedSection, sec_m,
    secs_m, ssec_m, ssecs_m};
use crate::text::str_eq;

verus! {

/// Index of the first primary entry named `name` at or after `i`, or `-1`.
pub open spec fn find_name_from(m: Seq<SecM>, name: Seq<char>, i: int) -> int
    decreases m.len() - i,
{
    if i < 0 || i >= m.len() {
        -1
    } else if m[i].0 == name {
        i
    } else {
        find_name_from(m, name, i + 1)
    }
}

pub proof fn lemma_find_name_from(m: Seq<SecM>, name: Seq<char>, i: int)
    requires
        0 <= i,
    ensures
        -1 <= find_name_from(m, name, i),
        find_name_from(m, name, i) == -1 ==> forall|j: int| i <= j < m.len() ==> m[j].0 != name,
        find_name_from(m, name, i) >= 0 ==> i <= find_name_from(m, name, i) < m.len()
            && m[find_name_from(m, name, i)].0 == name && forall|j: int|
            i <= j < find_name_from(m, name, i) ==> m[j].0 != name,
    decreases m.len() - i,
{
    if 0 <= i < m.len() && m[i].0 != name {
        lemma_find_name_from(m, name, i + 1);
    }
}

/// Insert or overwrite the entry named `name`.
pub open spec fn set_section(m: Seq<SecM>, name: Seq<char>, start: int, end: int) -> Seq<SecM> {
    let k = find_name_from(m, name, 0);
    if k < 0 {
        m.push((name, start, end))
    } else {
        m.update(k, (name, start, end))
    }
}

/// Index of the first sourced entry for `name` in buffer `buf` at or after `i`.
pub open spec fn find_sname_from(m: Seq<SSecM>, name: Seq<char>, buf: int, i: int) -> int
    decreases m.len() - i,
{
    if i < 0 || i >= m.len() {
        -1
    } else if m[i].0 == name && m[i].1 == buf {
        i
    } else {
        find_sname_from(m, name, buf, i + 1)
    }
}

pub proof fn lemma_find_sname_from(m: Seq<SSecM>, name: Seq<char>, buf: int, i: int)
    requires
        0 <= i,
    ensures
        -1 <= find_sname_from(m, name, buf, i),
        find_sname_from(m, name, buf, i) == -1 ==> forall|j: int| i <= j < m.len() ==> !(m[j].0
            == name && m[j].1 == buf),
        find_sname_from(m, name, buf, i) >= 0 ==> i <= find_sname_from(m, name, buf, i) < m.len()
            && m[find_sname_from(m, name, buf, i)].0 == name && m[find_sname_from(
            m,
            name,
            buf,
            i,
        )].1 == buf && forall|j: int| i <= j < find_sname_from(m, name, buf, i) ==> !(m[j].0
            == name && m[j].1 == buf),
    decreases m.len() - i,
{
    if 0 <= i < m.len() && !(m[i].0 == name && m[i].1 == buf) {
        lemma_find_sname_from(m, name, buf, i + 1);
    }
}

/// Insert or overwrite the entry for `name` in buffer `buf`.
pub open spec fn set_ssection(m: Seq<SSecM>, name: Seq<char>, buf: int, start: int, end: int)
    -> Seq<SSecM> {
    let k = find_sname_from(m, name, buf, 0);
    if k < 0 {
        m.push((name, buf, start, end))
    } else {
        m.update(k, (name, buf, start, end))
    }
}

/// How one recorded range moves when `off` lines are inserted at line
/// `pos` of its buffer: a range starting at or after `pos` moves whole; a
/// range straddling `pos` grows; a range entirely before `pos` is
/// untouched.
pub open spec fn shift_rec(r: SecM, pos: int, off: int) -> SecM {
    if r.1 >= pos {
        (r.0, r.1 + off, r.2 + off)
    } else if r.2 >= pos {
        (r.0, r.1, r.2 + off)
    } else {
        r
    }
}

/// Every range of the index shifted for an insertion of `off` lines at `pos`.
pub open spec fn shift_all(m: Seq<SecM>, pos: int, off: int) -> Seq<SecM> {
    m.map_values(|r: SecM| shift_rec(r, pos, off))
}

/// Every range of buffer `buf` shifted; ranges of other buffers untouched.
pub open spec fn shift_buf(m: Seq<SSecM>, buf: int, pos: int, off: int) -> Seq<SSecM> {
    m.map_values(
        |r: SSecM|
            if r.1 == buf {
                let s = shift_rec((r.0, r.2, r.3), pos, off);
                (r.0, r.1, s.1, s.2)
            } else {
                r
            },
    )
}

/// Two ranges are separate when they are disjoint or one lies strictly
/// inside the other.
pub open spec fn ranges_separate(a: SecM, b: SecM) -> bool {
    ||| a.2 < b.1
    ||| b.2 < a.1
    ||| (a.1 < b.1 && b.2 < a.2)
    ||| (b.1 < a.1 && a.2 < b.2)
}

/// Offset maintenance never makes ranges drift into one another: if every
/// pair of recorded ranges is disjoint or properly nested before lines are
/// inserted, every pair still is afterwards, whatever the insertion point.
pub proof fn lemma_shift_preserves_separation(m: Seq<SecM>, pos: int, off: int)
    requires
        off >= 0,
        forall|i: int| 0 <= i < m.len() ==> (#[trigger] m[i]).1 <= m[i].2,
        forall|i: int, j: int| 0 <= i < m.len() && 0 <= j < m.len() && i != j ==> ranges_separate(
            #[trigger] m[i],
            #[trigger] m[j],
        ),
    ensures
        forall|i: int, j: int| 0 <= i < m.len() && 0 <= j < m.len() && i != j ==> ranges_separate(
            #[trigger] shift_all(m, pos, off)[i],
            #[trigger] shift_all(m, pos, off)[j],
        ),
{
    assert forall|i: int, j: int| 0 <= i < m.len() && 0 <= j < m.len() && i != j
        implies ranges_separate(
        #[trigger] shift_all(m, pos, off)[i],
        #[trigger] shift_all(m, pos, off)[j],
    ) by {
        assert(shift_all(m, pos, off)[i] == shift_rec(m[i], pos, off));
        assert(shift_all(m, pos, off)[j] == shift_rec(m[j], pos, off));
    }
}

/// The first match is the one at `x` when nothing before it matches.
pub proof fn lemma_find_name_exact(m: Seq<SecM>, name: Seq<char>, x: int, j: int)
    requires
        0 <= j <= x < m.len(),
        m[x].0 == name,
        forall|t: int| j <= t < x ==> m[t].0 != name,
    ensures
        find_name_from(m, name, j) == x,
    decreases x - j,
{
    if j < x {
        lemma_find_name_exact(m, name, x, j + 1);
    }
}

pub proof fn lemma_find_sname_exact(m: Seq<SSecM>, name: Seq<char>, buf: int, x: int, j: int)
    requires
        0 <= j <= x < m.len(),
        m[x].0 == name && m[x].1 == buf,
        forall|t: int| j <= t < x ==> !(m[t].0 == name && m[t].1 == buf),
    ensures
        find_sname_from(m, name, buf, j) == x,
    decreases x - j,
{
    if j < x {
        lemma_find_sname_exact(m, name, buf, x, j + 1);
    }
}

/// After setting an entry, looking its name up finds exactly it.
pub proof fn lemma_set_section_find(m: Seq<SecM>, name: Seq<char>, start: int, end: int)
    ensures
        ({
            let r = set_section(m, name, start, end);
            let k = find_name_from(r, name, 0);
            0 <= k < r.len() && r[k] == (name, start, end)
        }),
{
    lemma_find_name_from(m, name, 0);
    let k0 = find_name_from(m, name, 0);
    let r = set_section(m, name, start, end);
    if k0 < 0 {
        assert forall|t: int| 0 <= t < m.len() implies r[t].0 != name by {
            assert(r[t] == m[t]);
        }
        lemma_find_name_exact(r, name, m.len() as int, 0);
    } else {
        assert forall|t: int| 0 <= t < k0 implies r[t].0 != name by {
            assert(r[t] == m[t]);
        }
        lemma_find_name_exact(r, name, k0, 0);
    }
}

/// After setting a sourced entry, looking its pair up finds exactly it.
pub proof fn lemma_set_ssection_find(m: Seq<SSecM>, name: Seq<char>, buf: int, start: int,
    end: int)
    ensures
        ({
            let r = set_ssection(m, name, buf, start, end);
            let k = find_sname_from(r, name, buf, 0);
            0 <= k < r.len() && r[k] == (name, buf, start, end)
        }),
{
    lemma_find_sname_from(m, name, buf, 0);
    let k0 = find_sname_from(m, name, buf, 0);
    let r = set_ssection(m, name, buf, start, end);
    if k0 < 0 {
        assert forall|t: int| 0 <= t < m.len() implies !(r[t].0 == name && r[t].1 == buf) by {
            assert(r[t] == m[t]);
        }
        lemma_find_sname_exact(r, name, buf, m.len() as int, 0);
    } else {
        assert forall|t: int| 0 <= t < k0 implies !(r[t].0 == name && r[t].1 == buf) by {
            assert(r[t] == m[t]);
        }
        lemma_find_sname_exact(r, name, buf, k0, 0);
    }
}

/// Some entry carries this name.
pub open spec fn has_name(m: Seq<SecM>, n: Seq<char>) -> bool {
    exists|j: int| 0 <= j < m.len() && m[j].0 == n
}

/// Some entry carries this (name, buffer) pair.
pub open spec fn has_pair(m: Seq<SSecM>, n: Seq<char>, buf: int) -> bool {
    exists|j: int| 0 <= j < m.len() && m[j].0 == n && m[j].1 == buf
}

/// A successful lookup is the same thing as the name being present.
pub proof fn lemma_has_name(m: Seq<SecM>, n: Seq<char>)
    ensures
        (find_name_from(m, n, 0) >= 0) == has_name(m, n),
{
    lemma_find_name_from(m, n, 0);
    if find_name_from(m, n, 0) >= 0 {
        assert(m[find_name_from(m, n, 0)].0 == n);
    }
}

/// A successful lookup is the same thing as the pair being present.
pub proof fn lemma_has_pair(m: Seq<SSecM>, n: Seq<char>, buf: int)
    ensures
        (find_sname_from(m, n, buf, 0) >= 0) == has_pair(m, n, buf),
{
    lemma_find_sname_from(m, n, buf, 0);
    if find_sname_from(m, n, buf, 0) >= 0 {
        let k = find_sname_from(m, n, buf, 0);
        assert(m[k].0 == n && m[k].1 == buf);
    }
}

/// Lookups agree on two indices that carry the same names.
pub proof fn lemma_find_name_same(a: Seq<SecM>, b: Seq<SecM>, n: Seq<char>, j: int)
    requires
        0 <= j,
        a.len() == b.len(),
        forall|t: int| 0 <= t < a.len() ==> a[t].0 == b[t].0,
    ensures
        find_name_from(a, n, j) == find_name_from(b, n, j),
    decreases a.len() - j,
{
    if j < a.len() {
        lemma_find_name_same(a, b, n, j + 1);
    }
}

/// Lookups agree on two sourced indices that carry the same pairs.
pub proof fn lemma_find_sname_same(a: Seq<SSecM>, b: Seq<SSecM>, n: Seq<char>, buf: int, j: int)
    requires
        0 <= j,
        a.len() == b.len(),
        forall|t: int| 0 <= t < a.len() ==> a[t].0 == b[t].0 && a[t].1 == b[t].1,
    ensures
        find_sname_from(a, n, buf, j) == find_sname_from(b, n, buf, j),
    decreases a.len() - j,
{
    if j < a.len() {
        lemma_find_sname_same(a, b, n, buf, j + 1);
    }
}

/// Setting an entry keeps names unique and touches no other entry.
pub proof fn lemma_set_section_frame(m: Seq<SecM>, name: Seq<char>, start: int, end: int)
    requires
        forall|i: int, j: int| 0 <= i < j < m.len() ==> m[i].0 != m[j].0,
    ensures
        ({
            let r = set_section(m, name, start, end);
            &&& forall|i: int, j: int| 0 <= i < j < r.len() ==> r[i].0 != r[j].0
            &&& forall|i: int|
                0 <= i < r.len() ==> (#[trigger] r[i] == (name, start, end) || (i < m.len() && r[i]
                    == m[i]))
        }),
{
    lemma_find_name_from(m, name, 0);
    let k = find_name_from(m, name, 0);
    let r = set_section(m, name, start, end);
    if k >= 0 {
        assert(m[k].0 == name);
        assert forall|j: int| 0 <= j < m.len() && j != k implies m[j].0 != name by {
            if j < k {
                assert(m[j].0 != m[k].0);
            } else {
                assert(m[k].0 != m[j].0);
            }
        }
        assert forall|i: int, j: int| 0 <= i < j < r.len() implies r[i].0 != r[j].0 by {
            if i != k && j != k {
                assert(r[i] == m[i] && r[j] == m[j]);
            } else if i == k {
                assert(r[j] == m[j] && r[i].0 == name);
            } else {
                assert(r[i] == m[i] && r[j].0 == name);
            }
        }
    } else {
        assert forall|i: int, j: int| 0 <= i < j < r.len() implies r[i].0 != r[j].0 by {
            if j == m.len() {
                assert(r[i] == m[i]);
                assert(m[i].0 != name);
            } else {
                assert(r[i] == m[i] && r[j] == m[j]);
            }
        }
    }
    assert forall|i: int| 0 <= i < r.len() implies (#[trigger] r[i] == (name, start, end) || (i
        < m.len() && r[i] == m[i])) by {
        if k >= 0 {
            if i == k {
                assert(r[i] == (name, start, end));
            } else {
                assert(r[i] == m[i]);
            }
        } else {
            if i == m.len() {
                assert(r[i] == (name, start, end));
            } else {
                assert(r[i] == m[i]);
            }
        }
    }
}

/// Setting a sourced entry keeps (name, buffer) pairs unique and touches
/// no other entry.
pub proof fn lemma_set_ssection_frame(m: Seq<SSecM>, name: Seq<char>, buf: int, start: int,
    end: int)
    requires
        forall|i: int, j: int| 0 <= i < j < m.len() ==> !(m[i].0 == m[j].0 && m[i].1 == m[j].1),
    ensures
        ({
            let r = set_ssection(m, name, buf, start, end);
            &&& forall|i: int, j: int| 0 <= i < j < r.len() ==> !(r[i].0 == r[j].0 && r[i].1
                == r[j].1)
            &&& forall|i: int|
                0 <= i < r.len() ==> (#[trigger] r[i] == (name, buf, start, end) || (i < m.len()
                    && r[i] == m[i]))
        }),
{
    lemma_find_sname_from(m, name, buf, 0);
    let k = find_sname_from(m, name, buf, 0);
    let r = set_ssection(m, name, buf, start, end);
    if k >= 0 {
        assert(m[k].0 == name && m[k].1 == buf);
        assert forall|j: int| 0 <= j < m.len() && j != k implies !(m[j].0 == name && m[j].1
            == buf) by {
            if j < k {
                assert(!(m[j].0 == m[k].0 && m[j].1 == m[k].1));
            } else {
                assert(!(m[k].0 == m[j].0 && m[k].1 == m[j].1));
            }
        }
        assert forall|i: int, j: int| 0 <= i < j < r.len() implies !(r[i].0 == r[j].0 && r[i].1
            == r[j].1) by {
            if i != k && j != k {
                assert(r[i] == m[i] && r[j] == m[j]);
            } else if i == k {
                assert(r[j] == m[j] && r[i].0 == name && r[i].1 == buf);
            } else {
                assert(r[i] == m[i] && r[j].0 == name && r[j].1 == buf);
            }
        }
    } else {
        assert forall|i: int, j: int| 0 <= i < j < r.len() implies !(r[i].0 == r[j].0 && r[i].1
            == r[j].1) by {
            if j == m.len() {
                assert(r[i] == m[i]);
                assert(!(m[i].0 == name && m[i].1 == buf));
            } else {
                assert(r[i] == m[i] && r[j] == m[j]);
            }
        }
    }
    assert forall|i: int| 0 <= i < r.len() implies (#[trigger] r[i] == (name, buf, start, end)
        || (i < m.len() && r[i] == m[i])) by {
        if k >= 0 {
            if i == k {
                assert(r[i] == (name, buf, start, end));
            } else {
                assert(r[i] == m[i]);
            }
        } else {
            if i == m.len() {
                assert(r[i] == (name, buf, start, end));
            } else {
                assert(r[i] == m[i]);
            }
        }
    }
}

/// Position of the first primary entry named `name`, if any.
pub fn sections_find(v: &Vec<Section>, name: &str) -> (r: Option<usize>)
    ensures
        match r {
            Some(k) => k < v@.len() && find_name_from(secs_m(v@), name@, 0) == k as int,
            None => find_name_from(secs_m(v@), name@, 0) == -1,
        },
{
    let mut i: usize = 0;
    while i < v.len()
        invariant
            0 <= i <= v@.len(),
            find_name_from(secs_m(v@), name@, 0) == find_name_from(secs_m(v@), name@, i as int),
        decreases v@.len() - i,
    {
        proof {
            assert(secs_m(v@)[i as int] == sec_m(v@[i as int]));
        }
        if str_eq(v[i].name.as_str(), name) {
            return Some(i);
        }
        i = i + 1;
    }
    None
}

/// Insert or overwrite the primary entry named `name`.
pub fn sections_set(v: &mut Vec<Section>, name: String, start: usize, end: usize)
    ensures
        secs_m(final(v)@) == set_section(secs_m(old(v)@), name@, start as int, end as int),
{
    let ghost m0 = secs_m(v@);
    let r = sections_find(v, name.as_str());
    match r {
        Some(k) => {
            v.set(k, Section { name, start, end });
            proof {
                assert(secs_m(v@) =~= m0.update(k as int, (name@, start as int, end as int)));
            }
        },
        None => {
            v.push(Section { name, start, end });
            proof {
                assert(secs_m(v@) =~= m0.push((name@, start as int, end as int)));
            }
        },
    }
}

/// Position of the first sourced entry for `name` in buffer `buf`, if any.
pub fn ssections_find(v: &Vec<SourcedSection>, name: &str, buf: usize) -> (r: Option<usize>)
    ensures
        match r {
            Some(k) => k < v@.len() && find_sname_from(ssecs_m(v@), name@, buf as int, 0)
                == k as int,
            None => find_sname_from(ssecs_m(v@), name@, buf as int, 0) == -1,
        },
{
    let mut i: usize = 0;
    while i < v.len()
        invariant
            0 <= i <= v@.len(),
            find_sname_from(ssecs_m(v@), name@, buf as int, 0) == find_sname_from(
                ssecs_m(v@),
                name@,
                buf as int,
                i as int,
            ),
        decreases v@.len() - i,
    {
        proof {
            assert(ssecs_m(v@)[i as int] == ssec_m(v@[i as int]));
        }
        if v[i].buffer == buf && str_eq(v[i].name.as_str(), name) {
            return Some(i);
        }
        i = i + 1;
    }
    None
}

/// Insert or overwrite the sourced entry for `name` in buffer `buf`.
pub fn ssections_set(v: &mut Vec<SourcedSection>, name: String, buf: usize, start: usize,
    end: usize)
    ensures
        ssecs_m(final(v)@) == set_ssection(ssecs_m(old(v)@), name@, buf as int, start as int,
            end as int),
{
    let ghost m0 = ssecs_m(v@);
    let r = ssections_find(v, name.as_str(), buf);
    match r {
        Some(k) => {
            v.set(k, SourcedSection { name, buffer: buf, start, end });
            proof {
                assert(ssecs_m(v@) =~= m0.update(k as int, (name@, buf as int, start as int,
                    end as int)));
            }
        },
        None => {
            v.push(SourcedSection { name, buffer: buf, start, end });
            proof {
                assert(ssecs_m(v@) =~= m0.push((name@, buf as int, start as int, end as int)));
            }
        },
    }
}

impl HyprlandConfig {
    /// Offset maintenance for the primary index after `offset` lines were
    /// inserted at line `pos` of the primary buffer: every recorded range
    /// shifts exactly as [`shift_rec`] says, and nothing else changes.
    pub fn update_sections(&mut self, pos: usize, offset: usize)
        requires
            forall|i: int| 0 <= i < old(self).m().sections.len() ==> {
                let r = #[trigger] old(self).m().sections[i];
                0 <= r.1 <= r.2 && r.2 + offset < usize::MAX
            },
        ensures
            final(self).m() == (ConfigModel {
                sections: shift_all(old(self).m().sections, pos as int, offset as int),
                ..old(self).m()
            }),
    {
        let ghost m0 = self.m();
        let mut i: usize = 0;
        while i < self.sections.len()
            invariant
                0 <= i <= self.sections@.len(),
                self.sections@.len() == m0.sections.len(),
                self.content == old(self).content,
                self.sourced_content == old(self).sourced_content,
                self.sourced_sections == old(self).sourced_sections,
                self.sourced_paths == old(self).sourced_paths,
                m0 == old(self).m(),
                forall|j: int| 0 <= j < m0.sections.len() ==> {
                    let r = #[trigger] m0.sections[j];
                    0 <= r.1 <= r.2 && r.2 + offset < usize::MAX
                },
                forall|j: int| i <= j < m0.sections.len() ==> #[trigger] sec_m(self.sections@[j])
                    == m0.sections[j],
                forall|j: int| 0 <= j < i ==> #[trigger] sec_m(self.sections@[j]) == shift_rec(
                    m0.sections[j],
                    pos as int,
                    offset as int,
                ),
            decreases self.sections@.len() - i,
        {
            proof {
                assert(sec_m(self.sections@[i as int]) == m0.sections[i as int]);
            }
            let name = self.sections[i].name.clone();
            let s0 = self.sections[i].start;
            let e0 = self.sections[i].end;
            let (s1, e1) = if s0 >= pos {
                (s0 + offset, e0 + offset)
            } else if e0 >= pos {
                (s0, e0 + offset)
            } else {
                (s0, e0)
            };
            self.sections.set(i, Section { name, start: s1, end: e1 });
            i = i + 1;
        }
        proof {
            assert(secs_m(self.sections@) =~= shift_all(m0.sections, pos as int, offset as int));
            assert(self.m() =~~= ConfigModel {
                sections: shift_all(m0.sections, pos as int, offset as int),
                ..m0
            });
        }
    }

    /// Offset maintenance for the sourced index after `offset` lines were
    /// inserted at line `pos` of sourced buffer `source_index`: ranges of
    /// that buffer shift exactly as [`shift_rec`] says, ranges of other
    /// buffers are untouched.
    pub fn update_sourced_sections(&mut self, source_index: usize, pos: usize, offset: usize)
        requires
            forall|i: int| 0 <= i < old(self).m().sourced_sections.len() ==> {
                let r = #[trigger] old(self).m().sourced_sections[i];
                0 <= r.2 <= r.3 && r.3 + offset < usize::MAX
            },
        ensures
            final(self).m() == (ConfigModel {
                sourced_sections: shift_buf(old(self).m().sourced_sections, source_index as int,
                    pos as int, offset as int),
                ..old(self).m()
            }),
    {
        let ghost m0 = self.m();
        let mut i: usize = 0;
        while i < self.sourced_sections.len()
            invariant
                0 <= i <= self.sourced_sections@.len(),
                self.sourced_sections@.len() == m0.sourced_sections.len(),
                self.content == old(self).content,
                self.sections == old(self).sections,
                self.sourced_content == old(self).sourced_content,
                self.sourced_paths == old(self).sourced_paths,
                m0 == old(self).m(),
                forall|j: int| 0 <= j < m0.sourced_sections.len() ==> {
                    let r = #[trigger] m0.sourced_sections[j];
                    0 <= r.2 <= r.3 && r.3 + offset < usize::MAX
                },
                forall|j: int| i <= j < m0.sourced_sections.len() ==> #[trigger] ssec_m(
                    self.sourced_sections@[j],
                ) == m0.sourced_sections[j],
                forall|j: int| 0 <= j < i ==> #[trigger] ssec_m(self.sourced_sections@[j])
                    == shift_buf(m0.sourced_sections, source_index as int, pos as int,
                    offset as int)[j],
            decreases self.sourced_sections@.len() - i,
        {
            proof {
                assert(ssec_m(self.sourced_sections@[i as int]) == m0.sourced_sections[i as int]);
            }
            let name = self.sourced_sections[i].name.clone();
            let buf = self.sourced_sections[i].buffer;
            let s0 = self.sourced_sections[i].start;
            let e0 = self.sourced_sections[i].end;
            let (s1, e1) = if buf == source_index {
                if s0 >= pos {
                    (s0 + offset, e0 + offset)
                } else if e0 >= pos {
                    (s0, e0 + offset)
                } else {
                    (s0, e0)
                }
            } else {
                (s0, e0)
            };
            self.sourced_sections.set(i, SourcedSection { name, buffer: buf, start: s1, end: e1 });
            i = i + 1;
        }
        proof {
            assert(ssecs_m(self.sourced_sections@) =~= shift_buf(m0.sourced_sections,
                source_index as int, pos as int, offset as int));
            assert(self.m() =~~= ConfigModel {
                sourced_sections: shift_buf(m0.sourced_sections, source_index as int, pos as int,
                    offset as int),
                ..m0
            });
        }
    }
}

} // verus!
