//! The entry editor: given a dotted category path and a `key = value`
//! fragment, locate or create the owning section -- in the primary buffer
//! or in a sourced buffer -- and either replace the first line of the
//! section body that starts with the key, or insert a new line just before
//! the section's closing brace, shifting the section index to match.

use vstd::prelude::*;
use vstd::string::*;

use crate::model::{ConfigModel, HyprlandConfig, WriteRequest, secs_m, ssecs_m, wf_model};
use crate::index::{find_name_from, find_sname_from, lemma_find_name_from, lemma_find_sname_from,
    lemma_set_section_find, lemma_set_section_frame, lemma_set_ssection_find,
    lemma_set_ssection_frame, sections_find, sections_set, set_section, set_ssection, shift_all,
    shift_buf, shift_rec, ssections_find, ssections_set};
use crate::text::{find_char, find_from, join_with, lemma_find_from, lemma_join_with_push,
    lemma_split_at_char_count, lemma_split_at_char_len, lines_view, spaces, spec_spaces,
    spec_starts_with, spec_trim, split_at_char, split_char, starts_with_str, trim_str};

verus! {

/// The key of an entry fragment: everything before the first `=`, trimmed;
/// the whole fragment trimmed when it has no `=`.
pub open spec fn key_of(entry: Seq<char>) -> Seq<char> {
    let k = find_from(entry, '=', 0);
    if k < 0 {
        spec_trim(entry)
    } else {
        spec_trim(entry.subrange(0, k))
    }
}

/// The last dotted component of a category path.
pub open spec fn last_comp(s: Seq<char>) -> Seq<char>
    decreases s.len(),
    via last_comp_decreases
{
    let k = find_from(s, '.', 0);
    if k < 0 {
        s
    } else {
        last_comp(s.subrange(k + 1, s.len() as int))
    }
}

#[via_fn]
proof fn last_comp_decreases(s: Seq<char>) {
    lemma_find_from(s, '.', 0);
}

/// The last dotted component is the last piece of the split path.
pub proof fn lemma_last_comp_split(s: Seq<char>)
    ensures
        last_comp(s) == split_at_char(s, '.').last(),
    decreases s.len(),
{
    lemma_find_from(s, '.', 0);
    let k = find_from(s, '.', 0);
    if k >= 0 {
        let rest = s.subrange(k + 1, s.len() as int);
        lemma_last_comp_split(rest);
        lemma_split_at_char_len(rest, '.');
        assert((seq![s.subrange(0, k)] + split_at_char(rest, '.')).last() == split_at_char(
            rest,
            '.',
        ).last());
    }
}

/// First line of `lines[lo..=hi]` whose trimmed text starts with `key`, or `-1`.
pub open spec fn find_key_from(lines: Seq<Seq<char>>, lo: int, hi: int, key: Seq<char>) -> int
    decreases hi - lo + 1,
{
    if lo < 0 || lo > hi || hi >= lines.len() {
        -1
    } else if spec_starts_with(spec_trim(lines[lo]), key) {
        lo
    } else {
        find_key_from(lines, lo + 1, hi, key)
    }
}

pub proof fn lemma_find_key_from(lines: Seq<Seq<char>>, lo: int, hi: int, key: Seq<char>)
    requires
        0 <= lo,
        hi < lines.len(),
    ensures
        -1 <= find_key_from(lines, lo, hi, key),
        find_key_from(lines, lo, hi, key) == -1 ==> forall|j: int| lo <= j <= hi
            ==> !spec_starts_with(spec_trim(#[trigger] lines[j]), key),
        find_key_from(lines, lo, hi, key) >= 0 ==> lo <= find_key_from(lines, lo, hi, key) <= hi
            && spec_starts_with(spec_trim(lines[find_key_from(lines, lo, hi, key)]), key)
            && forall|j: int| lo <= j < find_key_from(lines, lo, hi, key)
            ==> !spec_starts_with(spec_trim(#[trigger] lines[j]), key),
    decreases hi - lo + 1,
{
    if 0 <= lo <= hi && !spec_starts_with(spec_trim(lines[lo]), key) {
        lemma_find_key_from(lines, lo + 1, hi, key);
    }
}

/// Whether category creation puts a separating blank line before the new
/// block: only when the line just before the insertion point is not blank.
pub open spec fn blank_before(content: Seq<Seq<char>>, p: int) -> int {
    if p > 0 && spec_trim(content[p - 1]).len() > 0 {
        1
    } else {
        0
    }
}

/// Creating a category at position `p` of the primary buffer: an optional
/// separating blank line, the `name {` line indented four spaces per
/// depth, the matching `}`, and a trailing blank line; every previously
/// recorded range shifts for the insertion, and the new block's range is
/// recorded.
pub open spec fn spec_create(m: ConfigModel, cat: Seq<char>, depth: int, p: int) -> ConfigModel {
    let la = blank_before(m.content, p);
    let open_line = spec_spaces(4 * depth) + last_comp(cat) + seq![' ', '{'];
    let close_line = spec_spaces(4 * depth) + seq!['}'];
    let nc = if la == 1 {
        m.content.insert(p, Seq::empty()).insert(p + 1, open_line).insert(p + 2, close_line)
            .insert(p + 3, Seq::empty())
    } else {
        m.content.insert(p, open_line).insert(p + 1, close_line).insert(p + 2, Seq::empty())
    };
    ConfigModel {
        content: nc,
        sections: set_section(shift_all(m.sections, p, 3 + la), cat, p + la, p + la + 1),
        ..m
    }
}

/// The dotted name of the first `i + 1` components of a path.
pub open spec fn cur_name(parts: Seq<Seq<char>>, i: int) -> Seq<char> {
    join_with(parts.subrange(0, i + 1), '.')
}

/// Walking the dotted path through the primary buffer, creating each
/// missing section at the running insertion point; at the leaf, the first
/// body line starting with the key is replaced in place, or the formatted
/// entry is inserted just before the closing brace and the index shifts.
pub open spec fn spec_walk(
    m: ConfigModel,
    parts: Seq<Seq<char>>,
    i: int,
    ip: int,
    entry: Seq<char>,
) -> ConfigModel
    decreases parts.len() - i,
{
    if i < 0 || i >= parts.len() {
        m
    } else {
        let cur = cur_name(parts, i);
        let m1 = if find_name_from(m.sections, cur, 0) < 0 {
            spec_create(m, cur, i, ip)
        } else {
            m
        };
        let k = find_name_from(m1.sections, cur, 0);
        let s = m1.sections[k].1;
        let e = m1.sections[k].2;
        if i == parts.len() - 1 {
            let f = find_key_from(m1.content, s, e, key_of(entry));
            let formatted = spec_spaces(4 * (i + 1)) + entry;
            if f >= 0 {
                ConfigModel { content: m1.content.update(f, formatted), ..m1 }
            } else {
                ConfigModel {
                    content: m1.content.insert(e, formatted),
                    sections: shift_all(m1.sections, e, 1),
                    ..m1
                }
            }
        } else {
            spec_walk(m1, parts, i + 1, e, entry)
        }
    }
}

/// The first sourced buffer, from `i` on, that has a recorded section
/// named `cat` and a non-empty backing path; `-1` if none has.
pub open spec fn spec_find_sourced(m: ConfigModel, cat: Seq<char>, i: int) -> int
    decreases m.sourced_content.len() - i,
{
    if i < 0 || i >= m.sourced_content.len() {
        -1
    } else if find_sname_from(m.sourced_sections, cat, i, 0) >= 0 && i < m.sourced_paths.len()
        && m.sourced_paths[i].len() > 0 {
        i
    } else {
        spec_find_sourced(m, cat, i + 1)
    }
}

pub proof fn lemma_spec_find_sourced(m: ConfigModel, cat: Seq<char>, i: int)
    requires
        0 <= i,
    ensures
        -1 <= spec_find_sourced(m, cat, i),
        spec_find_sourced(m, cat, i) >= 0 ==> i <= spec_find_sourced(m, cat, i)
            < m.sourced_content.len() && find_sname_from(m.sourced_sections, cat,
            spec_find_sourced(m, cat, i), 0) >= 0 && spec_find_sourced(m, cat, i)
            < m.sourced_paths.len() && m.sourced_paths[spec_find_sourced(m, cat, i)].len() > 0,
    decreases m.sourced_content.len() - i,
{
    if 0 <= i < m.sourced_content.len() && !(find_sname_from(m.sourced_sections, cat, i, 0) >= 0
        && i < m.sourced_paths.len() && m.sourced_paths[i].len() > 0) {
        lemma_spec_find_sourced(m, cat, i + 1);
    }
}

/// The parent category of a dotted path: everything before the last
/// component, or the path itself when it has a single component.
pub open spec fn parent_of(cat: Seq<char>) -> Seq<char> {
    let parts = split_at_char(cat, '.');
    if parts.len() > 1 {
        join_with(parts.subrange(0, parts.len() - 1), '.')
    } else {
        cat
    }
}

/// Editing inside sourced buffer `idx`, whose index records the parent
/// category.  When the full category is missing there and the path is
/// dotted, a new indented subsection holding the entry is created just
/// before the parent's closing brace; otherwise the entry replaces the
/// first body line starting with its key, or is inserted before the
/// owning section's closing brace.
pub open spec fn spec_add_sourced(
    m: ConfigModel,
    idx: int,
    parts: Seq<Seq<char>>,
    cat: Seq<char>,
    entry: Seq<char>,
) -> ConfigModel {
    let parent = parent_of(cat);
    let pk = find_sname_from(m.sourced_sections, parent, idx, 0);
    let ps = m.sourced_sections[pk].2;
    let pe = m.sourced_sections[pk].3;
    let ck = find_sname_from(m.sourced_sections, cat, idx, 0);
    let buf = m.sourced_content[idx];
    if parts.len() > 1 && ck < 0 {
        let dp = parts.len() - 2;
        let la = blank_before(buf, pe);
        let open_line = spec_spaces(4 * (dp + 1)) + parts.last() + seq![' ', '{'];
        let entry_line = spec_spaces(4 * (dp + 2)) + entry;
        let close_line = spec_spaces(4 * (dp + 1)) + seq!['}'];
        let nb = if la == 1 {
            buf.insert(pe, Seq::empty()).insert(pe + 1, open_line).insert(pe + 2, entry_line)
                .insert(pe + 3, close_line)
        } else {
            buf.insert(pe, open_line).insert(pe + 1, entry_line).insert(pe + 2, close_line)
        };
        ConfigModel {
            sourced_content: m.sourced_content.update(idx, nb),
            sourced_sections: set_ssection(
                shift_buf(m.sourced_sections, idx, pe, 3 + la),
                cat,
                idx,
                pe + la,
                pe + la + 2,
            ),
            ..m
        }
    } else {
        let ss = if ck >= 0 { m.sourced_sections[ck].2 } else { ps };
        let se = if ck >= 0 { m.sourced_sections[ck].3 } else { pe };
        let formatted = spec_spaces(4 * parts.len() as int) + entry;
        let f = find_key_from(buf, ss, se, key_of(entry));
        if f >= 0 {
            ConfigModel { sourced_content: m.sourced_content.update(idx, buf.update(f, formatted)), ..m }
        } else {
            ConfigModel {
                sourced_content: m.sourced_content.update(idx, buf.insert(se, formatted)),
                sourced_sections: shift_buf(m.sourced_sections, idx, se, 1),
                ..m
            }
        }
    }
}

/// Adding an entry: when the parent category is recorded in some
/// file-backed sourced buffer, the edit happens there; otherwise the
/// dotted path is walked through the primary buffer.
pub open spec fn spec_add_entry(m: ConfigModel, cat: Seq<char>, entry: Seq<char>) -> ConfigModel {
    let parts = split_at_char(cat, '.');
    let idx = spec_find_sourced(m, parent_of(cat), 0);
    if idx >= 0 {
        spec_add_sourced(m, idx, parts, cat, entry)
    } else {
        spec_walk(m, parts, 0, m.content.len() as int, entry)
    }
}

/// What should be persisted after adding an entry: the edited sourced
/// buffer's backing path with its new text, or nothing for a primary
/// edit.  The primary buffer is never written back by the library.
pub open spec fn spec_write_request(m: ConfigModel, cat: Seq<char>, entry: Seq<char>)
    -> Option<(Seq<char>, Seq<char>)> {
    let parts = split_at_char(cat, '.');
    let idx = spec_find_sourced(m, parent_of(cat), 0);
    if idx >= 0 {
        let m1 = spec_add_sourced(m, idx, parts, cat, entry);
        Some((m.sourced_paths[idx], join_with(m1.sourced_content[idx], '\n')))
    } else {
        None::<(Seq<char>, Seq<char>)>
    }
}

/// A sourced edit keeps the model well formed: every range stays inside
/// its buffer and every (name, buffer) pair stays unique.
pub proof fn lemma_add_sourced_wf(
    m: ConfigModel,
    idx: int,
    parts: Seq<Seq<char>>,
    cat: Seq<char>,
    entry: Seq<char>,
)
    requires
        wf_model(m),
        0 <= idx < m.sourced_content.len(),
        find_sname_from(m.sourced_sections, parent_of(cat), idx, 0) >= 0,
    ensures
        wf_model(spec_add_sourced(m, idx, parts, cat, entry)),
{
    let parent = parent_of(cat);
    let pk = find_sname_from(m.sourced_sections, parent, idx, 0);
    lemma_find_sname_from(m.sourced_sections, parent, idx, 0);
    let ps = m.sourced_sections[pk].2;
    let pe = m.sourced_sections[pk].3;
    let ck = find_sname_from(m.sourced_sections, cat, idx, 0);
    lemma_find_sname_from(m.sourced_sections, cat, idx, 0);
    let buf = m.sourced_content[idx];
    let r = spec_add_sourced(m, idx, parts, cat, entry);
    if parts.len() > 1 && ck < 0 {
        let la = blank_before(buf, pe);
        let shifted = shift_buf(m.sourced_sections, idx, pe, 3 + la);
        assert forall|i: int, j: int| 0 <= i < j < shifted.len() implies !(shifted[i].0
            == shifted[j].0 && shifted[i].1 == shifted[j].1) by {
            assert(shifted[i].0 == m.sourced_sections[i].0 && shifted[i].1
                == m.sourced_sections[i].1);
            assert(shifted[j].0 == m.sourced_sections[j].0 && shifted[j].1
                == m.sourced_sections[j].1);
        }
        lemma_set_ssection_frame(shifted, cat, idx, pe + la, pe + la + 2);
        assert forall|j: int| 0 <= j < r.sourced_sections.len() implies {
            let rr = #[trigger] r.sourced_sections[j];
            0 <= rr.1 < r.sourced_content.len() && 0 <= rr.2 <= rr.3 < r.sourced_content[
                rr.1].len()
        } by {
            if r.sourced_sections[j] == (cat, idx, pe + la, pe + la + 2) {
                assert(r.sourced_content[idx].len() == buf.len() + 3 + la);
            } else {
                assert(r.sourced_sections[j] == shifted[j]);
                let o = m.sourced_sections[j];
                if o.1 == idx {
                    assert(r.sourced_content[idx].len() == buf.len() + 3 + la);
                } else {
                    assert(r.sourced_content[o.1] == m.sourced_content[o.1]);
                }
            }
        }
    } else {
        let ss = if ck >= 0 { m.sourced_sections[ck].2 } else { ps };
        let se = if ck >= 0 { m.sourced_sections[ck].3 } else { pe };
        assert(0 <= ss <= se < buf.len());
        let f = find_key_from(buf, ss, se, key_of(entry));
        if f >= 0 {
            lemma_find_key_from(buf, ss, se, key_of(entry));
            assert forall|j: int| 0 <= j < r.sourced_sections.len() implies {
                let rr = #[trigger] r.sourced_sections[j];
                0 <= rr.1 < r.sourced_content.len() && 0 <= rr.2 <= rr.3 < r.sourced_content[
                    rr.1].len()
            } by {
                let o = m.sourced_sections[j];
                if o.1 == idx {
                    assert(r.sourced_content[idx].len() == buf.len());
                } else {
                    assert(r.sourced_content[o.1] == m.sourced_content[o.1]);
                }
            }
        } else {
            let shifted = shift_buf(m.sourced_sections, idx, se, 1);
            assert forall|j: int| 0 <= j < r.sourced_sections.len() implies {
                let rr = #[trigger] r.sourced_sections[j];
                0 <= rr.1 < r.sourced_content.len() && 0 <= rr.2 <= rr.3 < r.sourced_content[
                    rr.1].len()
            } by {
                assert(r.sourced_sections[j] == shifted[j]);
                let o = m.sourced_sections[j];
                if o.1 == idx {
                    assert(r.sourced_content[idx].len() == buf.len() + 1);
                } else {
                    assert(r.sourced_content[o.1] == m.sourced_content[o.1]);
                }
            }
            assert forall|i: int, j: int| 0 <= i < j < r.sourced_sections.len() implies !(
            r.sourced_sections[i].0 == r.sourced_sections[j].0 && r.sourced_sections[i].1
                == r.sourced_sections[j].1) by {
                assert(r.sourced_sections[i].0 == m.sourced_sections[i].0
                    && r.sourced_sections[i].1 == m.sourced_sections[i].1);
                assert(r.sourced_sections[j].0 == m.sourced_sections[j].0
                    && r.sourced_sections[j].1 == m.sourced_sections[j].1);
            }
        }
    }
}

/// A trimmed entry fragment starts with its own key.
pub proof fn lemma_trim_starts_with_key(e: Seq<char>)
    ensures
        spec_starts_with(spec_trim(e), key_of(e)),
{
    crate::text::lemma_find_from(e, '=', 0);
    let k = find_from(e, '=', 0);
    if k < 0 {
        assert(spec_trim(e).subrange(0, spec_trim(e).len() as int) =~= spec_trim(e));
    } else {
        let p = e.subrange(0, k);
        let a = crate::text::first_non_space(e, 0);
        let b = crate::text::end_non_space(e, e.len() as int);
        crate::text::lemma_first_non_space(e, 0);
        crate::text::lemma_end_non_space(e, e.len() as int);
        assert(e[k] == '=');
        assert(!crate::text::is_space('='));
        assert(b > k) by {
            if b <= k {
                assert(crate::text::is_space(e[k]));
            }
        }
        let ap = crate::text::first_non_space(p, 0);
        let bp = crate::text::end_non_space(p, k as int);
        crate::text::lemma_first_non_space(p, 0);
        crate::text::lemma_end_non_space(p, p.len() as int);
        if a >= k {
            assert forall|j: int| 0 <= j < k implies crate::text::is_space(p[j]) by {
                assert(p[j] == e[j]);
            }
            crate::text::lemma_end_non_space_exact(p, 0, k);
            assert(key_of(e) =~= Seq::<char>::empty());
            assert(spec_trim(e).subrange(0, 0) =~= Seq::<char>::empty());
        } else {
            assert forall|j: int| 0 <= j < a implies crate::text::is_space(p[j]) by {
                assert(p[j] == e[j]);
            }
            assert(p[a] == e[a]);
            crate::text::lemma_first_non_space_exact(p, a, 0);
            assert(a < bp) by {
                if a >= bp {
                    assert(crate::text::is_space(p[a]));
                }
            }
            assert(a < b);
            assert(key_of(e) =~= e.subrange(a, bp)) by {
                assert(spec_trim(p) == p.subrange(a, bp));
                assert forall|t: int| 0 <= t < bp - a implies p.subrange(a, bp)[t] == e.subrange(
                    a,
                    bp,
                )[t] by {
                    assert(p[a + t] == e[a + t]);
                }
                assert(p.subrange(a, bp) =~= e.subrange(a, bp));
            }
            assert(bp <= b);
            assert(spec_trim(e) == e.subrange(a, b));
            assert(spec_trim(e).subrange(0, bp - a) =~= e.subrange(a, bp));
        }
    }
}

/// The first key match is the one at `x` when nothing before it matches.
pub proof fn lemma_find_key_exact(lines: Seq<Seq<char>>, lo: int, hi: int, key: Seq<char>, x: int)
    requires
        0 <= lo <= x <= hi < lines.len(),
        spec_starts_with(spec_trim(lines[x]), key),
        forall|t: int| lo <= t < x ==> !spec_starts_with(spec_trim(#[trigger] lines[t]), key),
    ensures
        find_key_from(lines, lo, hi, key) == x,
    decreases x - lo,
{
    if lo < x {
        lemma_find_key_exact(lines, lo + 1, hi, key, x);
    }
}

/// Every recorded range has its opening line strictly before its closing
/// line, as every parsed or created section block does.
pub open spec fn proper_ranges(m: ConfigModel) -> bool {
    &&& forall|i: int| 0 <= i < m.sections.len() ==> (#[trigger] m.sections[i]).1
        < m.sections[i].2
    &&& forall|i: int| 0 <= i < m.sourced_sections.len() ==> (#[trigger] m.sourced_sections[
    i]).2 < m.sourced_sections[i].3
}

/// Two models with the same sourced bookkeeping agree on which buffer an
/// edit lands in.
proof fn lemma_find_sourced_same(m1: ConfigModel, m2: ConfigModel, cat: Seq<char>, i: int)
    requires
        0 <= i,
        m1.sourced_paths == m2.sourced_paths,
        m1.sourced_content.len() == m2.sourced_content.len(),
        forall|b: int| crate::index::has_pair(m1.sourced_sections, cat, b)
            == crate::index::has_pair(m2.sourced_sections, cat, b),
    ensures
        spec_find_sourced(m1, cat, i) == spec_find_sourced(m2, cat, i),
    decreases m1.sourced_content.len() - i,
{
    if i < m1.sourced_content.len() {
        crate::index::lemma_has_pair(m1.sourced_sections, cat, i);
        crate::index::lemma_has_pair(m2.sourced_sections, cat, i);
        lemma_find_sourced_same(m1, m2, cat, i + 1);
    }
}

/// A dotted path is strictly longer than its parent, so the two differ.
proof fn lemma_parent_shorter(cat: Seq<char>)
    requires
        split_at_char(cat, '.').len() > 1,
    ensures
        parent_of(cat).len() < cat.len(),
{
    let parts = split_at_char(cat, '.');
    crate::text::lemma_join_split(cat, '.');
    lemma_join_with_push(parts.subrange(0, parts.len() - 1), parts.last(), '.');
    assert(parts.subrange(0, parts.len() - 1).push(parts.last()) =~= parts);
    assert(parts.subrange(0, parts.len() as int) =~= parts);
    assert(join_with(parts, '.') == parent_of(cat) + seq!['.'] + parts.last());
}

/// Collapsing sourced edits: after one edit of a category, a second edit
/// of the same category with any entry of the same key yields exactly what
/// that second edit alone yields -- it finds the line the first edit wrote
/// and rewrites it.  The one family left out: a freshly created subsection
/// whose opening line itself starts with the key, which the second pass
/// would match first.
#[verifier::rlimit(100)]
#[verifier::spinoff_prover]
proof fn lemma_add_sourced_idem(m: ConfigModel, cat: Seq<char>, e1: Seq<char>, e2: Seq<char>)
    requires
        wf_model(m),
        proper_ranges(m),
        key_of(e1) == key_of(e2),
        spec_find_sourced(m, parent_of(cat), 0) >= 0,
        ({
            let parts = split_at_char(cat, '.');
            let idx = spec_find_sourced(m, parent_of(cat), 0);
            (parts.len() > 1 && find_sname_from(m.sourced_sections, cat, idx, 0) < 0)
                ==> !spec_starts_with(
                spec_trim(parts.last() + seq![' ', '{']),
                key_of(e1),
            )
        }),
    ensures
        ({
            let parts = split_at_char(cat, '.');
            let idx = spec_find_sourced(m, parent_of(cat), 0);
            let m1 = spec_add_sourced(m, idx, parts, cat, e1);
            spec_find_sourced(m1, parent_of(cat), 0) == idx && spec_add_sourced(m1, idx, parts,
                cat, e2) == spec_add_sourced(m, idx, parts, cat, e2)
        }),
{
    let parts = split_at_char(cat, '.');
    let parent = parent_of(cat);
    let idx = spec_find_sourced(m, parent, 0);
    lemma_spec_find_sourced(m, parent, 0);
    let m1 = spec_add_sourced(m, idx, parts, cat, e1);
    let once = spec_add_sourced(m, idx, parts, cat, e2);
    let pk = find_sname_from(m.sourced_sections, parent, idx, 0);
    lemma_find_sname_from(m.sourced_sections, parent, idx, 0);
    let ps = m.sourced_sections[pk].2;
    let pe = m.sourced_sections[pk].3;
    let ck = find_sname_from(m.sourced_sections, cat, idx, 0);
    lemma_find_sname_from(m.sourced_sections, cat, idx, 0);
    let buf = m.sourced_content[idx];
    let key = key_of(e1);
    lemma_trim_starts_with_key(e1);
    lemma_trim_starts_with_key(e2);
    crate::text::lemma_split_at_char_len(cat, '.');

    if parts.len() > 1 && ck < 0 {
        // A subsection was created; the second pass finds it and rewrites
        // its entry line.
        lemma_parent_shorter(cat);
        let dp = parts.len() - 2;
        let la = blank_before(buf, pe);
        let open_line = spec_spaces(4 * (dp + 1) as int) + parts.last() + seq![' ', '{'];
        let entry_line1 = spec_spaces(4 * (dp + 2) as int) + e1;
        let entry_line2 = spec_spaces(4 * (dp + 2) as int) + e2;
        let shifted = shift_buf(m.sourced_sections, idx, pe as int, 3 + la);
        lemma_set_ssection_find(shifted, cat, idx, pe + la, pe + la + 2);
        crate::index::lemma_find_sname_same(m.sourced_sections, shifted, cat, idx, 0);
        assert forall|b: int| crate::index::has_pair(m1.sourced_sections, parent, b)
            == crate::index::has_pair(m.sourced_sections, parent, b) by {
            if crate::index::has_pair(m.sourced_sections, parent, b) {
                let w = choose|j: int| 0 <= j < m.sourced_sections.len()
                    && m.sourced_sections[j].0 == parent && m.sourced_sections[j].1 == b;
                assert(m1.sourced_sections[w].0 == parent && m1.sourced_sections[w].1 == b);
            }
            if crate::index::has_pair(m1.sourced_sections, parent, b) {
                let w = choose|j: int| 0 <= j < m1.sourced_sections.len()
                    && #[trigger] m1.sourced_sections[j].0 == parent && m1.sourced_sections[
                j].1 == b;
                if w < m.sourced_sections.len() {
                    assert(m.sourced_sections[w].0 == parent && m.sourced_sections[w].1 == b);
                } else {
                    assert(m1.sourced_sections[w] == (cat, idx, pe + la as int, pe + la + 2));
                    assert(parent.len() < cat.len());
                }
            }
        }
        lemma_find_sourced_same(m1, m, parent, 0);
        assert(spec_find_sourced(m1, parent, 0) == idx);
        // the second pass
        lemma_find_sname_from(m1.sourced_sections, cat, idx, 0);
        assert(m1.sourced_sections[find_sname_from(m1.sourced_sections, cat, idx, 0)] == (cat,
        idx, pe + la as int, pe + la + 2));
        let buf1 = m1.sourced_content[idx];
        assert(buf1[pe + la] == open_line);
        assert(buf1[pe + la + 1] == entry_line1);
        crate::text::lemma_trim_leading_spaces(4 * (dp + 1) as int, parts.last() + seq![' ', '{']);
        assert(spec_spaces(4 * (dp + 1) as int) + (parts.last() + seq![' ', '{']) =~= open_line);
        crate::text::lemma_trim_leading_spaces(4 * (dp + 2) as int, e1);
        assert(spec_spaces(4 * (dp + 2) as int) + e1 =~= entry_line1);
        assert(spec_starts_with(spec_trim(entry_line1), key));
        assert(!spec_starts_with(spec_trim(open_line), key));
        lemma_find_key_exact(buf1, pe + la as int, pe + la + 2, key, pe + la + 1);
        let formatted2 = spec_spaces(4 * parts.len() as int) + e2;
        assert(formatted2 == entry_line2);
        let m2 = spec_add_sourced(m1, idx, parts, cat, e2);
        assert(buf1.update(pe + la + 1, formatted2) =~= once.sourced_content[idx as int]);
        assert(m1.sourced_content.update(idx, buf1.update(pe + la + 1, formatted2))
            =~= once.sourced_content);
        assert(m2 =~~= once);
    } else {
        let ss = if ck >= 0 { m.sourced_sections[ck].2 } else { ps };
        let se = if ck >= 0 { m.sourced_sections[ck].3 } else { pe };
        assert(0 <= ss < se < buf.len());
        let formatted1 = spec_spaces(4 * parts.len() as int) + e1;
        let formatted2 = spec_spaces(4 * parts.len() as int) + e2;
        crate::text::lemma_trim_leading_spaces(4 * parts.len() as int, e1);
        assert(spec_starts_with(spec_trim(formatted1), key));
        let f = find_key_from(buf, ss, se, key);
        lemma_find_key_from(buf, ss, se, key);
        if f >= 0 {
            // a replacement changes no bookkeeping at all
            assert(m1.sourced_sections == m.sourced_sections);
            lemma_find_sourced_same(m1, m, parent, 0);
            let buf1 = m1.sourced_content[idx];
            assert(buf1 == buf.update(f, formatted1));
            assert forall|t: int| ss <= t < f implies !spec_starts_with(spec_trim(
                #[trigger] buf1[t]), key) by {
                assert(buf1[t] == buf[t]);
            }
            lemma_find_key_exact(buf1, ss, se, key, f);
            let m2 = spec_add_sourced(m1, idx, parts, cat, e2);
            assert(buf1.update(f, formatted2) =~= buf.update(f, formatted2));
            assert(m1.sourced_content.update(idx, buf1.update(f, formatted2))
                =~= once.sourced_content);
            assert(m2 =~~= once);
        } else {
            // the inserted line is found and rewritten
            let shifted = shift_buf(m.sourced_sections, idx, se, 1);
            assert forall|b: int| crate::index::has_pair(m1.sourced_sections, parent, b)
                == crate::index::has_pair(m.sourced_sections, parent, b) by {
                if crate::index::has_pair(m.sourced_sections, parent, b) {
                    let w = choose|j: int| 0 <= j < m.sourced_sections.len()
                        && m.sourced_sections[j].0 == parent && m.sourced_sections[j].1 == b;
                    assert(m1.sourced_sections[w].0 == parent && m1.sourced_sections[w].1 == b);
                }
                if crate::index::has_pair(m1.sourced_sections, parent, b) {
                    let w = choose|j: int| 0 <= j < m1.sourced_sections.len()
                        && #[trigger] m1.sourced_sections[j].0 == parent && m1.sourced_sections[
                    j].1 == b;
                    assert(m.sourced_sections[w].0 == parent && m.sourced_sections[w].1 == b);
                }
            }
            lemma_find_sourced_same(m1, m, parent, 0);
            crate::index::lemma_find_sname_same(m.sourced_sections, shifted, cat, idx, 0);
            crate::index::lemma_find_sname_same(m.sourced_sections, shifted, parent, idx, 0);
            let buf1 = m1.sourced_content[idx];
            assert(buf1 == buf.insert(se, formatted1));
            let ss1 = if ck >= 0 { m1.sourced_sections[ck].2 } else { m1.sourced_sections[
            pk].2 };
            let se1 = if ck >= 0 { m1.sourced_sections[ck].3 } else { m1.sourced_sections[
            pk].3 };
            assert(ss1 == ss && se1 == se + 1) by {
                if ck >= 0 {
                    assert(m1.sourced_sections[ck] == ((cat, idx, ss, se + 1)));
                } else {
                    assert(m1.sourced_sections[pk] == ((parent, idx, ss, se + 1)));
                }
            }
            assert forall|t: int| ss <= t < se implies !spec_starts_with(spec_trim(
                #[trigger] buf1[t]), key) by {
                assert(buf1[t] == buf[t]);
            }
            assert(buf1[se] == formatted1);
            lemma_find_key_exact(buf1, ss, se + 1, key, se);
            let m2 = spec_add_sourced(m1, idx, parts, cat, e2);
            assert(buf1.update(se, formatted2) =~= buf.insert(se, formatted2));
            assert(m1.sourced_content.update(idx, buf1.update(se, formatted2))
                =~= once.sourced_content);
            assert(m1.sourced_sections == once.sourced_sections);
            assert(m2 =~~= once);
        }
    }
}

/// Category creation: what it does to the index.  The new block's range is
/// recorded and findable, every other name survives, ranges stay proper
/// and in bounds, and the buffer grows by the block's lines.
proof fn lemma_create_props(m: ConfigModel, cat: Seq<char>, depth: int, p: int)
    requires
        wf_model(m),
        proper_ranges(m),
        0 <= p <= m.content.len(),
    ensures
        ({
            let r = spec_create(m, cat, depth, p);
            let la = blank_before(m.content, p);
            &&& r.sourced_content == m.sourced_content
            &&& r.sourced_sections == m.sourced_sections
            &&& r.sourced_paths == m.sourced_paths
            &&& r.content.len() == m.content.len() + 3 + la
            &&& wf_model(r)
            &&& proper_ranges(r)
            &&& (forall|n: Seq<char>|
                crate::index::has_name(r.sections, n) == (crate::index::has_name(m.sections, n)
                    || n == cat))
            &&& ({
                let k = find_name_from(r.sections, cat, 0);
                0 <= k < r.sections.len() && r.sections[k] == (cat, p + la, p + la + 1)
            })
            &&& r.content[p + la] == spec_spaces(4 * depth) + last_comp(cat) + seq![' ', '{']
            &&& r.content[p + la + 1] == spec_spaces(4 * depth) + seq!['}']
            &&& (forall|q: int| 0 <= q < p ==> r.content[q] == m.content[q])
            &&& (forall|q: int| p <= q < m.content.len() ==> r.content[q + 3 + la]
                == m.content[q])
        }),
{
    let r = spec_create(m, cat, depth, p);
    let la = blank_before(m.content, p);
    let nrec = (cat, p + la, p + la + 1);
    let shifted = shift_all(m.sections, p, 3 + la);
    assert(shifted.len() == m.sections.len());
    assert forall|i: int, j: int| 0 <= i < j < shifted.len() implies shifted[i].0 != shifted[
    j].0 by {
        assert(shifted[i].0 == m.sections[i].0);
        assert(shifted[j].0 == m.sections[j].0);
    }
    lemma_set_section_frame(shifted, cat, p + la, p + la + 1);
    lemma_set_section_find(shifted, cat, p + la, p + la + 1);
    assert(r.content.len() == m.content.len() + 3 + la);
    assert forall|j: int| 0 <= j < r.sections.len() implies {
        let rr = #[trigger] r.sections[j];
        0 <= rr.1 < rr.2 < r.content.len()
    } by {
        if r.sections[j] == nrec {
        } else {
            assert(j < shifted.len() && r.sections[j] == shifted[j]);
            assert(shifted[j] == shift_rec(m.sections[j], p, 3 + la));
        }
    }
    let k0 = find_name_from(shifted, cat, 0);
    crate::index::lemma_find_name_from(shifted, cat, 0);
    assert forall|n: Seq<char>| crate::index::has_name(r.sections, n) == (
    crate::index::has_name(m.sections, n) || n == cat) by {
        if n == cat {
            let k = find_name_from(r.sections, cat, 0);
            assert(r.sections[k].0 == n);
            assert(crate::index::has_name(r.sections, n));
        }
        if crate::index::has_name(m.sections, n) && n != cat {
            let w = choose|j: int| 0 <= j < m.sections.len() && #[trigger] m.sections[j].0 == n;
            assert(shifted[w].0 == n);
            assert(!(k0 >= 0 && w == k0)) by {
                if k0 >= 0 && w == k0 {
                    assert(shifted[k0].0 == cat);
                }
            }
            assert(r.sections[w] == shifted[w]);
            assert(r.sections[w].0 == n);
            assert(crate::index::has_name(r.sections, n));
        }
        if crate::index::has_name(r.sections, n) && n != cat {
            let w = choose|j: int| 0 <= j < r.sections.len() && #[trigger] r.sections[j].0 == n;
            if k0 >= 0 {
                assert(w != k0) by {
                    if w == k0 {
                        assert(r.sections[k0] == nrec);
                    }
                }
                assert(r.sections[w] == shifted[w]);
                assert(m.sections[w].0 == n);
                assert(crate::index::has_name(m.sections, n));
            } else {
                assert(w != m.sections.len()) by {
                    if w == m.sections.len() {
                        assert(r.sections[w] == nrec);
                    }
                }
                assert(r.sections[w] == shifted[w]);
                assert(m.sections[w].0 == n);
                assert(crate::index::has_name(m.sections, n));
            }
        }
    }

    assert(r.content[p + la] == spec_spaces(4 * depth) + last_comp(cat) + seq![' ', '{']);
    assert(r.content[p + la + 1] == spec_spaces(4 * depth) + seq!['}']);
    assert forall|q: int| 0 <= q < p implies r.content[q] == m.content[q] by {}
    assert forall|q: int| p <= q < m.content.len() implies r.content[q + 3 + la]
        == m.content[q] by {}
}

/// Walking a dotted path twice collapses: after a walk has run, walking
/// again from any insertion point with any entry of the same key yields
/// exactly what one walk with that entry yields, because every section of
/// the path now exists and the leaf's body holds the first walk's line as
/// its first key match.  The walk also leaves every sourced structure
/// untouched and the index well formed.
proof fn lemma_walk_idem(m: ConfigModel, parts: Seq<Seq<char>>, i: int, ip: int, entry: Seq<char>)
    requires
        wf_model(m),
        proper_ranges(m),
        0 <= i < parts.len(),
        0 <= ip <= m.content.len(),
    ensures
        ({
            let r = spec_walk(m, parts, i, ip, entry);
            &&& r.sourced_content == m.sourced_content
            &&& r.sourced_sections == m.sourced_sections
            &&& r.sourced_paths == m.sourced_paths
            &&& wf_model(r)
            &&& proper_ranges(r)
            &&& (forall|n: Seq<char>|
                crate::index::has_name(r.sections, n) == (crate::index::has_name(m.sections, n)
                    || exists|j: int| i <= j < parts.len() && n == cur_name(parts, j)))
            &&& (forall|ip2: int, e2: Seq<char>|
                0 <= ip2 && key_of(e2) == key_of(entry) ==> spec_walk(r, parts, i, ip2, e2)
                    == spec_walk(m, parts, i, ip, e2))
        }),
    decreases parts.len() - i,
{
    let r = spec_walk(m, parts, i, ip, entry);
    let cur = cur_name(parts, i);
    let key = key_of(entry);
    lemma_trim_starts_with_key(entry);
    crate::index::lemma_has_name(m.sections, cur);
    let created = find_name_from(m.sections, cur, 0) < 0;
    let m1 = if created {
        spec_create(m, cur, i, ip)
    } else {
        m
    };
    if created {
        lemma_create_props(m, cur, i, ip);
    }
    crate::index::lemma_has_name(m1.sections, cur);
    assert(crate::index::has_name(m1.sections, cur)) by {
        if created {
        } else {
            crate::index::lemma_find_name_from(m.sections, cur, 0);
        }
    }
    let k = find_name_from(m1.sections, cur, 0);
    crate::index::lemma_find_name_from(m1.sections, cur, 0);
    let s = m1.sections[k].1;
    let e = m1.sections[k].2;
    assert(0 <= s < e < m1.content.len());
    if i == parts.len() - 1 {
        let f = find_key_from(m1.content, s, e, key);
        lemma_find_key_from(m1.content, s, e, key);
        let formatted = spec_spaces(4 * (i + 1)) + entry;
        crate::text::lemma_trim_leading_spaces(4 * (i + 1), entry);
        assert(spec_starts_with(spec_trim(formatted), key));
        if f >= 0 {
            assert(r.content == m1.content.update(f, formatted));
            assert(r.sections == m1.sections);
            assert forall|n: Seq<char>| crate::index::has_name(r.sections, n) == (
            crate::index::has_name(m.sections, n) || exists|j: int| i <= j < parts.len() && n
                == cur_name(parts, j)) by {
                if n == cur {
                    assert(i <= i < parts.len() && n == cur_name(parts, i));
                }
                if exists|j: int| i <= j < parts.len() && n == cur_name(parts, j) {
                    assert(n == cur);
                }
            }
            // a second pass replaces the same line, so the first is moot
            assert forall|ip2: int, e2: Seq<char>| 0 <= ip2 && key_of(e2) == key_of(entry)
                implies spec_walk(r, parts, i, ip2, e2) == spec_walk(m, parts, i, ip, e2) by {
                crate::index::lemma_has_name(r.sections, cur);
                crate::index::lemma_find_name_from(r.sections, cur, 0);
                let k2 = find_name_from(r.sections, cur, 0);
                assert(k2 == k) by {
                    crate::index::lemma_find_name_same(m1.sections, r.sections, cur, 0);
                }
                assert forall|t: int| s <= t < f implies !spec_starts_with(spec_trim(
                    #[trigger] r.content[t]), key) by {
                    assert(r.content[t] == m1.content[t]);
                }
                lemma_find_key_exact(r.content, s, e, key, f);
                let fmt2 = spec_spaces(4 * (i + 1)) + e2;
                assert(r.content.update(f, fmt2) =~= m1.content.update(f, fmt2));
                assert(spec_walk(r, parts, i, ip2, e2) =~~= spec_walk(m, parts, i, ip, e2));
            }
        } else {
            assert(r.content == m1.content.insert(e, formatted));
            assert(r.sections == shift_all(m1.sections, e, 1));
            assert(r.sections.len() == m1.sections.len());
            assert forall|j: int| 0 <= j < r.sections.len() implies #[trigger] r.sections[j]
                == shift_rec(m1.sections[j], e, 1) && r.sections[j].0 == m1.sections[j].0 by {}
            assert forall|j: int, t: int| 0 <= j < t < r.sections.len() implies r.sections[j].0
                != r.sections[t].0 by {
                assert(r.sections[j].0 == m1.sections[j].0);
                assert(r.sections[t].0 == m1.sections[t].0);
            }
            assert forall|n: Seq<char>| crate::index::has_name(r.sections, n) == (
            crate::index::has_name(m.sections, n) || exists|j: int| i <= j < parts.len() && n
                == cur_name(parts, j)) by {
                if crate::index::has_name(r.sections, n) {
                    let w = choose|j: int| 0 <= j < r.sections.len() && #[trigger] r.sections[
                    j].0 == n;
                    assert(m1.sections[w].0 == n);
                    assert(crate::index::has_name(m1.sections, n));
                }
                if crate::index::has_name(m1.sections, n) {
                    let w = choose|j: int| 0 <= j < m1.sections.len() && #[trigger] m1.sections[
                    j].0 == n;
                    assert(r.sections[w].0 == n);
                    assert(crate::index::has_name(r.sections, n));
                }
                if n == cur {
                    assert(i <= i < parts.len() && n == cur_name(parts, i));
                }
                if exists|j: int| i <= j < parts.len() && n == cur_name(parts, j) {
                    assert(n == cur);
                }
            }
            assert forall|ip2: int, e2: Seq<char>| 0 <= ip2 && key_of(e2) == key_of(entry)
                implies spec_walk(r, parts, i, ip2, e2) == spec_walk(m, parts, i, ip, e2) by {
                crate::index::lemma_has_name(r.sections, cur);
                crate::index::lemma_find_name_same(m1.sections, r.sections, cur, 0);
                let k2 = find_name_from(r.sections, cur, 0);
                assert(k2 == k);
                assert(r.sections[k] == (cur, s, e + 1));
                assert forall|t: int| s <= t < e implies !spec_starts_with(spec_trim(
                    #[trigger] r.content[t]), key) by {
                    assert(r.content[t] == m1.content[t]);
                }
                assert(r.content[e] == formatted);
                lemma_find_key_exact(r.content, s, e + 1, key, e);
                let fmt2 = spec_spaces(4 * (i + 1)) + e2;
                assert(r.content.update(e, fmt2) =~= m1.content.insert(e, fmt2));
                assert(spec_walk(r, parts, i, ip2, e2) =~~= spec_walk(m, parts, i, ip, e2));
            }
        }
    } else {
        assert(r == spec_walk(m1, parts, i + 1, e, entry));
        lemma_walk_idem(m1, parts, i + 1, e, entry);
        assert forall|n: Seq<char>| crate::index::has_name(r.sections, n) == (
        crate::index::has_name(m.sections, n) || exists|j: int| i <= j < parts.len() && n
            == cur_name(parts, j)) by {
            if crate::index::has_name(r.sections, n) {
                if !crate::index::has_name(m.sections, n) {
                    if crate::index::has_name(m1.sections, n) {
                        assert(n == cur);
                        assert(i <= i < parts.len() && n == cur_name(parts, i));
                    } else {
                        let w = choose|j: int| i + 1 <= j < parts.len() && n == cur_name(
                            parts,
                            j,
                        );
                        assert(i <= w < parts.len() && n == cur_name(parts, w));
                    }
                }
            }
            if crate::index::has_name(m.sections, n) {
                assert(crate::index::has_name(m1.sections, n));
                assert(crate::index::has_name(r.sections, n));
            }
            if exists|j: int| i <= j < parts.len() && n == cur_name(parts, j) {
                let w = choose|j: int| i <= j < parts.len() && n == #[trigger] cur_name(
                    parts,
                    j,
                );
                if w == i {
                    assert(crate::index::has_name(m1.sections, n));
                    assert(crate::index::has_name(r.sections, n));
                } else {
                    assert(i + 1 <= w < parts.len() && n == cur_name(parts, w));
                    assert(crate::index::has_name(r.sections, n));
                }
            }
        }
        assert forall|ip2: int, e2: Seq<char>| 0 <= ip2 && key_of(e2) == key_of(entry)
            implies spec_walk(r, parts, i, ip2, e2) == spec_walk(m, parts, i, ip, e2) by {
            assert(crate::index::has_name(r.sections, cur)) by {
                assert(crate::index::has_name(m1.sections, cur));
            }
            crate::index::lemma_has_name(r.sections, cur);
            let k3 = find_name_from(r.sections, cur, 0);
            crate::index::lemma_find_name_from(r.sections, cur, 0);
            let e3 = r.sections[k3].2;
            assert(0 <= e3);
            assert(spec_walk(r, parts, i + 1, e3, e2) == spec_walk(m1, parts, i + 1, e, e2));
            assert(spec_walk(m, parts, i, ip, e2) == spec_walk(m1, parts, i + 1, e, e2));
        }
    }
}

/// Idempotent update: adding an entry under a category and then adding an
/// entry with the same key again yields a document identical to adding the
/// second entry once -- the second pass finds the line the first pass
/// wrote and rewrites it with the final value, duplicating nothing.  The
/// one family of inputs left out: an edit that creates a fresh subsection
/// inside a sourced buffer whose opening line itself starts with the key
/// (say, category `a.b` with entry `b = 1`), where the second pass matches
/// the opening line first and overwrites it instead.
pub proof fn lemma_add_entry_idempotent(m: ConfigModel, cat: Seq<char>, e1: Seq<char>,
    e2: Seq<char>)
    requires
        wf_model(m),
        proper_ranges(m),
        key_of(e1) == key_of(e2),
        ({
            let parts = split_at_char(cat, '.');
            let idx = spec_find_sourced(m, parent_of(cat), 0);
            (idx >= 0 && parts.len() > 1 && find_sname_from(m.sourced_sections, cat, idx, 0)
                < 0) ==> !spec_starts_with(
                spec_trim(parts.last() + seq![' ', '{']),
                key_of(e1),
            )
        }),
    ensures
        spec_add_entry(spec_add_entry(m, cat, e1), cat, e2) == spec_add_entry(m, cat, e2),
{
    let parts = split_at_char(cat, '.');
    let parent = parent_of(cat);
    let idx = spec_find_sourced(m, parent, 0);
    lemma_spec_find_sourced(m, parent, 0);
    let m1 = spec_add_entry(m, cat, e1);
    if idx >= 0 {
        lemma_add_sourced_idem(m, cat, e1, e2);
    } else {
        crate::text::lemma_split_at_char_len(cat, '.');
        lemma_walk_idem(m, parts, 0, m.content.len() as int, e1);
        assert forall|b: int| crate::index::has_pair(m1.sourced_sections, parent, b)
            == crate::index::has_pair(m.sourced_sections, parent, b) by {
            assert(m1.sourced_sections == m.sourced_sections);
        }
        lemma_find_sourced_same(m1, m, parent, 0);
        assert(spec_find_sourced(m1, parent, 0) == -1);
        assert(spec_walk(m1, parts, 0, m1.content.len() as int, e2) == spec_walk(m, parts, 0,
            m.content.len() as int, e2));
    }
}

/// Deeper dotted prefixes are strictly longer, so all the prefixes of a
/// path name distinct sections.
proof fn lemma_cur_len_lt(parts: Seq<Seq<char>>, j1: int, j2: int)
    requires
        0 <= j1 < j2 < parts.len(),
    ensures
        cur_name(parts, j1).len() < cur_name(parts, j2).len(),
    decreases j2 - j1,
{
    lemma_join_with_push(parts.subrange(0, j2), parts[j2], '.');
    assert(parts.subrange(0, j2 + 1) =~= parts.subrange(0, j2).push(parts[j2]));
    assert(cur_name(parts, j2) == cur_name(parts, j2 - 1) + seq!['.'] + parts[j2]);
    if j1 < j2 - 1 {
        lemma_cur_len_lt(parts, j1, j2 - 1);
    }
}

/// Section creation determinism: adding an entry under a brand-new nested
/// category builds, at every level, a correctly indented opening line and
/// closing brace, and the index maps each dotted prefix to a range lying
/// strictly inside its parent's range -- properly nested and disjoint.
/// All the new blocks sit in the window of freshly inserted lines, lines
/// outside the window are untouched, and a recorded range around the
/// insertion point grows by exactly the window's size.
#[verifier::rlimit(100)]
#[verifier::spinoff_prover]
pub proof fn lemma_walk_creates_nested(
    m: ConfigModel,
    parts: Seq<Seq<char>>,
    i: int,
    ip: int,
    entry: Seq<char>,
)
    requires
        wf_model(m),
        proper_ranges(m),
        0 <= i < parts.len(),
        0 <= ip <= m.content.len(),
        forall|j: int| i <= j < parts.len() ==> !crate::index::has_name(
            m.sections,
            #[trigger] cur_name(parts, j),
        ),
        !spec_starts_with(
            spec_trim(last_comp(cur_name(parts, parts.len() - 1)) + seq![' ', '{']),
            key_of(entry),
        ),
        !spec_starts_with(seq!['}'], key_of(entry)),
    ensures
        ({
            let r = spec_walk(m, parts, i, ip, entry);
            let g = r.content.len() - m.content.len();
            &&& g >= 3
            &&& r.sections.len() == m.sections.len() + (parts.len() - i)
            &&& (forall|t: int| 0 <= t < m.sections.len() ==> (#[trigger] r.sections[t]).0
                == m.sections[t].0)
            &&& (forall|t: int| 0 <= t < m.sections.len() && m.sections[t].1 < ip
                <= m.sections[t].2 ==> #[trigger] r.sections[t] == (m.sections[t].0,
            m.sections[t].1, m.sections[t].2 + g))
            &&& (forall|j: int| i <= j < parts.len() ==> find_name_from(r.sections,
                #[trigger] cur_name(parts, j), 0) == m.sections.len() + (j - i))
            &&& (forall|j: int| i <= j < parts.len() ==> {
                let c = #[trigger] r.sections[m.sections.len() + (j - i)];
                c.0 == cur_name(parts, j) && ip <= c.1 < c.2 < ip + g && r.content[c.1]
                    == spec_spaces(4 * j) + last_comp(cur_name(parts, j)) + seq![' ', '{']
                    && r.content[c.2] == spec_spaces(4 * j) + seq!['}']
            })
            &&& (forall|j: int| i <= j < parts.len() - 1 ==> {
                let c = #[trigger] r.sections[m.sections.len() + (j - i)];
                let d = r.sections[m.sections.len() + (j - i) + 1];
                c.1 < d.1 && d.2 < c.2
            })
            &&& (forall|q: int| 0 <= q < ip ==> #[trigger] r.content[q] == m.content[q])
            &&& (forall|q: int| ip <= q < m.content.len() ==> #[trigger] r.content[q + g]
                == m.content[q])
        }),
    decreases parts.len() - i,
{
    let r = spec_walk(m, parts, i, ip, entry);
    let cur = cur_name(parts, i);
    let key = key_of(entry);
    crate::index::lemma_has_name(m.sections, cur);
    crate::index::lemma_find_name_from(m.sections, cur, 0);
    assert(find_name_from(m.sections, cur, 0) < 0);
    let m1 = spec_create(m, cur, i, ip);
    lemma_create_props(m, cur, i, ip);
    let la = blank_before(m.content, ip);
    let shifted = shift_all(m.sections, ip, 3 + la);
    crate::index::lemma_find_name_same(m.sections, shifted, cur, 0);
    assert(m1.sections == shifted.push((cur, ip + la, ip + la + 1)));
    let ci = m.sections.len() as int;
    assert(m1.sections[ci] == (cur, ip + la, ip + la + 1));
    crate::index::lemma_find_name_from(m1.sections, cur, 0);
    let k = find_name_from(m1.sections, cur, 0);
    assert(k == ci) by {
        assert forall|t: int| 0 <= t < ci implies m1.sections[t].0 != cur by {
            assert(m1.sections[t] == shifted[t]);
            assert(shifted[t].0 == m.sections[t].0);
        }
        crate::index::lemma_find_name_exact(m1.sections, cur, ci, 0);
    }
    let s = m1.sections[k].1;
    let e = m1.sections[k].2;
    assert(s == ip + la && e == ip + la + 1);
    if i == parts.len() - 1 {
        let f = find_key_from(m1.content, s, e, key);
        lemma_find_key_from(m1.content, s, e, key);
        assert(f < 0) by {
            if f >= 0 {
                if f == s {
                    crate::text::lemma_trim_leading_spaces(4 * i, last_comp(cur) + seq![
                        ' ',
                        '{',
                    ]);
                    assert(spec_spaces(4 * i) + (last_comp(cur) + seq![' ', '{'])
                        =~= m1.content[s]);
                } else {
                    assert(f == e);
                    crate::text::lemma_trim_leading_spaces(4 * i, seq!['}']);
                    assert(spec_spaces(4 * i) + seq!['}'] =~= m1.content[e]);
                    assert(spec_trim(seq!['}']) =~= seq!['}']);
                }
            }
        }
        let formatted = spec_spaces(4 * (i + 1)) + entry;
        assert(r.content == m1.content.insert(e, formatted));
        assert(r.sections == shift_all(m1.sections, e, 1));
        let g = r.content.len() - m.content.len();
        assert(g == 4 + la);
        assert(r.sections[ci] == (cur, s, e + 1)) by {
            assert(r.sections[ci] == shift_rec(m1.sections[ci], e, 1));
        }
        assert(find_name_from(r.sections, cur, 0) == ci) by {
            crate::index::lemma_find_name_same(m1.sections, r.sections, cur, 0);
        }
        assert(r.content[s] == m1.content[s]);
        assert(r.content[e + 1] == m1.content[e]);
        assert(r.sections[m.sections.len() + (i - i)] == (cur, s, e + 1));
        assert forall|t: int| 0 <= t < ci && m.sections[t].1 < ip <= m.sections[t].2 implies
            #[trigger] r.sections[t] == (m.sections[t].0, m.sections[t].1, m.sections[t].2
            + g) by {
            assert(m1.sections[t] == shifted[t]);
            assert(shifted[t] == shift_rec(m.sections[t], ip, 3 + la));
            assert(m1.sections[t] == (m.sections[t].0, m.sections[t].1, m.sections[t].2 + 3
                + la));
            assert(r.sections[t] == shift_rec(m1.sections[t], e, 1));
        }
        assert forall|t: int| 0 <= t < ci implies (#[trigger] r.sections[t]).0
            == m.sections[t].0 by {
            assert(r.sections[t] == shift_rec(m1.sections[t], e, 1));
            assert(m1.sections[t] == shifted[t]);
        }
        assert forall|q: int| 0 <= q < ip implies #[trigger] r.content[q] == m.content[q] by {
            assert(m1.content[q] == m.content[q]);
        }
        assert forall|q: int| ip <= q < m.content.len() implies #[trigger] r.content[q + g]
            == m.content[q] by {
            assert(m1.content[q + 3 + la] == m.content[q]);
            assert(q + 3 + la > e);
            assert(r.content[q + 3 + la + 1] == m1.content[q + 3 + la]);
        }
    } else {
        assert(r == spec_walk(m1, parts, i + 1, e, entry));
        assert forall|j: int| i + 1 <= j < parts.len() implies !crate::index::has_name(
            m1.sections,
            #[trigger] cur_name(parts, j),
        ) by {
            lemma_cur_len_lt(parts, i, j);
        }
        lemma_walk_creates_nested(m1, parts, i + 1, e, entry);
        let g1 = r.content.len() - m1.content.len();
        let g = r.content.len() - m.content.len();
        assert(g == g1 + 3 + la);
        assert(m1.sections.len() == ci + 1);
        // the new block's own entry, after the deeper walk grew it
        assert(m1.sections[ci].1 < e <= m1.sections[ci].2);
        assert(r.sections[ci] == (cur, s, e + g1));
        assert(find_name_from(r.sections, cur, 0) == ci) by {
            assert forall|t: int| 0 <= t < ci implies r.sections[t].0 != cur by {
                assert(r.sections[t].0 == m1.sections[t].0);
                assert(m1.sections[t] == shifted[t]);
                assert(shifted[t].0 == m.sections[t].0);
            }
            crate::index::lemma_find_name_exact(r.sections, cur, ci, 0);
        }
        // frame for the enclosing document
        assert forall|t: int| 0 <= t < ci implies (#[trigger] r.sections[t]).0
            == m.sections[t].0 by {
            assert(r.sections[t].0 == m1.sections[t].0);
            assert(m1.sections[t] == shifted[t]);
        }
        assert forall|t: int| 0 <= t < ci && m.sections[t].1 < ip <= m.sections[t].2 implies
            #[trigger] r.sections[t] == (m.sections[t].0, m.sections[t].1, m.sections[t].2
            + g) by {
            assert(m1.sections[t] == shifted[t]);
            assert(shifted[t] == shift_rec(m.sections[t], ip, 3 + la));
            assert(m1.sections[t] == (m.sections[t].0, m.sections[t].1, m.sections[t].2 + 3
                + la));
            assert(m1.sections[t].1 < e <= m1.sections[t].2);
        }
        assert forall|q: int| 0 <= q < ip implies #[trigger] r.content[q] == m.content[q] by {
            assert(m1.content[q] == m.content[q]);
            assert(r.content[q] == m1.content[q]);
        }
        assert forall|q: int| ip <= q < m.content.len() implies #[trigger] r.content[q + g]
            == m.content[q] by {
            assert(m1.content[q + 3 + la] == m.content[q]);
            assert(q + 3 + la >= e);
            assert(r.content[q + 3 + la + g1] == m1.content[q + 3 + la]);
        }
        // braces of this level survive the deeper walk
        assert(r.content[s] == m1.content[s]);
        assert(r.content[e + g1] == m1.content[e]);
        assert(r.sections[m.sections.len() + (i - i)] == (cur, s, e + g1));
        // carry the deeper levels' facts over, one index arithmetic step
        assert forall|j: int| i + 1 <= j < parts.len() implies {
            let c = #[trigger] r.sections[m.sections.len() + (j - i)];
            c.0 == cur_name(parts, j) && ip <= c.1 < c.2 < ip + g && r.content[c.1]
                == spec_spaces(4 * j) + last_comp(cur_name(parts, j)) + seq![' ', '{']
                && r.content[c.2] == spec_spaces(4 * j) + seq!['}']
        } by {
            let c2 = r.sections[m1.sections.len() + (j - (i + 1))];
            assert(m1.sections.len() + (j - (i + 1)) == m.sections.len() + (j - i));
            assert(c2.0 == cur_name(parts, j));
            assert(e <= c2.1 < c2.2 < e + g1);
        }
        assert forall|j: int| i + 1 <= j < parts.len() implies find_name_from(
            r.sections,
            #[trigger] cur_name(parts, j),
            0,
        ) == m.sections.len() + (j - i) by {
            assert(find_name_from(r.sections, cur_name(parts, j), 0) == m1.sections.len() + (j
                - (i + 1)));
        }
        assert forall|j: int| i + 1 <= j < parts.len() - 1 implies {
            let c = #[trigger] r.sections[m.sections.len() + (j - i)];
            let d2 = r.sections[m.sections.len() + (j - i) + 1];
            c.1 < d2.1 && d2.2 < c.2
        } by {
            let ca = r.sections[m1.sections.len() + (j - (i + 1))];
            let da = r.sections[m1.sections.len() + (j - (i + 1)) + 1];
            assert(m1.sections.len() + (j - (i + 1)) == m.sections.len() + (j - i));
            assert(ca.1 < da.1 && da.2 < ca.2);
        }
        // nesting of this level around the next
        let d = r.sections[m1.sections.len() + ((i + 1) - (i + 1))];
        assert(m1.sections.len() + ((i + 1) - (i + 1)) == ci + 1);
        assert(d.0 == cur_name(parts, i + 1) && e <= d.1 < d.2 < e + g1);
        assert(s < d.1 && d.2 < e + g1);
        assert(r.sections[m.sections.len() + (i - i) + 1] == d);
    }
}

/// Section creation determinism at the editor's entry point: adding an
/// entry under a brand-new dotted category of the primary document maps
/// every prefix of the path to a range strictly inside its parent's, with
/// correctly indented braces at every level.
pub proof fn lemma_add_entry_creates_nested(m: ConfigModel, cat: Seq<char>, entry: Seq<char>)
    requires
        wf_model(m),
        proper_ranges(m),
        spec_find_sourced(m, parent_of(cat), 0) == -1,
        forall|j: int| 0 <= j < split_at_char(cat, '.').len() ==> !crate::index::has_name(
            m.sections,
            #[trigger] cur_name(split_at_char(cat, '.'), j),
        ),
        !spec_starts_with(
            spec_trim(last_comp(cat) + seq![' ', '{']),
            key_of(entry),
        ),
        !spec_starts_with(seq!['}'], key_of(entry)),
    ensures
        ({
            let r = spec_add_entry(m, cat, entry);
            let parts = split_at_char(cat, '.');
            let base = m.sections.len() as int;
            &&& (forall|j: int| 0 <= j < parts.len() ==> find_name_from(r.sections,
                #[trigger] cur_name(parts, j), 0) == base + j)
            &&& (forall|j: int| 0 <= j < parts.len() ==> {
                let c = #[trigger] r.sections[base + j];
                c.0 == cur_name(parts, j) && m.content.len() <= c.1 < c.2 && r.content[c.1]
                    == spec_spaces(4 * j) + last_comp(cur_name(parts, j)) + seq![' ', '{']
                    && r.content[c.2] == spec_spaces(4 * j) + seq!['}']
            })
            &&& (forall|j: int| 0 <= j < parts.len() - 1 ==> {
                let c = #[trigger] r.sections[base + j];
                let d = r.sections[base + j + 1];
                c.1 < d.1 && d.2 < c.2
            })
        }),
{
    let parts = split_at_char(cat, '.');
    crate::text::lemma_split_at_char_len(cat, '.');
    assert(cur_name(parts, parts.len() - 1) == cat) by {
        assert(parts.subrange(0, parts.len() as int) =~= parts);
        crate::text::lemma_join_split(cat, '.');
    }
    lemma_walk_creates_nested(m, parts, 0, m.content.len() as int, entry);
    assert forall|j: int| 0 <= j < parts.len() implies {
        let c = #[trigger] spec_add_entry(m, cat, entry).sections[m.sections.len() as int + j];
        c == spec_walk(m, parts, 0, m.content.len() as int, entry).sections[m.sections.len()
            + (j - 0)]
    } by {
        assert(m.sections.len() as int + j == m.sections.len() + (j - 0));
    }
}

/// Insert one line into a buffer.
fn insert_line(content: &mut Vec<String>, pos: usize, line: String)
    requires
        pos <= old(content)@.len(),
    ensures
        final(content)@.len() == old(content)@.len() + 1,
        lines_view(final(content)@) == lines_view(old(content)@).insert(pos as int, line@),
{
    let ghost pre = content@;
    content.insert(pos, line);
    proof {
        assert forall|j: int| 0 <= j < content@.len() implies lines_view(content@)[j]
            == lines_view(pre).insert(pos as int, line@)[j] by {
            if j < pos {
                assert(content@[j] == pre[j]);
            } else if j == pos {
                assert(content@[j] == line);
            } else {
                assert(content@[j] == pre[j - 1]);
            }
        }
        assert(lines_view(content@) =~= lines_view(pre).insert(pos as int, line@));
    }
}

/// Replace one line of a buffer.
fn set_line(content: &mut Vec<String>, pos: usize, line: String)
    requires
        pos < old(content)@.len(),
    ensures
        final(content)@.len() == old(content)@.len(),
        lines_view(final(content)@) == lines_view(old(content)@).update(pos as int, line@),
{
    let ghost pre = content@;
    content.set(pos, line);
    proof {
        assert forall|j: int| 0 <= j < content@.len() implies lines_view(content@)[j]
            == lines_view(pre).update(pos as int, line@)[j] by {
            if j != pos {
                assert(content@[j] == pre[j]);
            } else {
                assert(content@[j] == line);
            }
        }
        assert(lines_view(content@) =~= lines_view(pre).update(pos as int, line@));
    }
}

/// The key of an entry fragment.
fn key_of_exec(entry: &str) -> (r: String)
    ensures
        r@ == key_of(entry@),
{
    proof {
        lemma_find_from(entry@, '=', 0);
    }
    match find_char(entry, '=') {
        Some(k) => trim_str(entry.substring_char(0, k)),
        None => trim_str(entry),
    }
}

/// First line of `content[lo..=hi]` whose trimmed text starts with `key`.
fn find_key_line(content: &Vec<String>, lo: usize, hi: usize, key: &str) -> (r: Option<usize>)
    requires
        lo <= hi < content@.len(),
    ensures
        match r {
            Some(x) => lo <= x <= hi && find_key_from(lines_view(content@), lo as int, hi as int,
                key@) == x as int,
            None => find_key_from(lines_view(content@), lo as int, hi as int, key@) == -1,
        },
{
    let n = content.len();
    let mut x: usize = lo;
    while x <= hi
        invariant
            lo <= x <= hi + 1,
            hi < n,
            n == content@.len(),
            find_key_from(lines_view(content@), lo as int, hi as int, key@) == find_key_from(
                lines_view(content@),
                x as int,
                hi as int,
                key@,
            ),
        decreases hi + 1 - x,
    {
        let trimmed = trim_str(content[x].as_str());
        proof {
            assert(lines_view(content@)[x as int] == content@[x as int]@);
        }
        if starts_with_str(trimmed.as_str(), key) {
            return Some(x);
        }
        x = x + 1;
    }
    None
}

/// The dotted name of the first `k` components.
fn join_parts(parts: &Vec<String>, k: usize) -> (r: String)
    requires
        1 <= k <= parts@.len(),
    ensures
        r@ == join_with(lines_view(parts@).subrange(0, k as int), '.'),
{
    let ghost pv = lines_view(parts@);
    let mut r = parts[0].clone();
    proof {
        assert(pv.subrange(0, 1) =~= seq![pv[0]]);
        assert(join_with(seq![pv[0]], '.') == pv[0]);
        assert(r@ == pv[0]);
    }
    let mut j: usize = 1;
    while j < k
        invariant
            1 <= j <= k,
            k <= parts@.len(),
            pv == lines_view(parts@),
            r@ == join_with(pv.subrange(0, j as int), '.'),
        decreases k - j,
    {
        proof {
            reveal_strlit(".");
        }
        r.append(".");
        r.append(parts[j].as_str());
        proof {
            assert(pv.subrange(0, j as int).len() >= 1);
            lemma_join_with_push(pv.subrange(0, j as int), pv[j as int], '.');
            assert(pv.subrange(0, j + 1) =~= pv.subrange(0, j as int).push(pv[j as int]));
            assert(r@ =~= join_with(pv.subrange(0, j as int), '.') + seq!['.'] + pv[j as int]);
        }
        j = j + 1;
    }
    r
}

impl HyprlandConfig {
    /// Create a new, empty section block named by the last dotted
    /// component of `category`, at `*insert_pos` in the primary buffer:
    /// a separating blank line if the preceding line is not blank, the
    /// opening line indented four spaces per depth, the closing brace and
    /// a trailing blank line.  The section index shifts for the insertion
    /// and records the new block; `*insert_pos` ends just past the block.
    pub fn create_category(&mut self, category: &str, depth: usize, insert_pos: &mut usize)
        requires
            wf_model(old(self).m()),
            *old(insert_pos) <= old(self).m().content.len(),
            4 * depth + 8 <= usize::MAX,
            old(self).m().content.len() + 8 <= usize::MAX,
        ensures
            final(self).m() == spec_create(old(self).m(), category@, depth as int,
                *old(insert_pos) as int),
            *final(insert_pos) as int == *old(insert_pos) + 3 + blank_before(old(self).m().content,
                *old(insert_pos) as int),
            wf_model(final(self).m()),
    {
        let ghost m0 = self.m();
        let ghost p0 = *insert_pos as int;
        let parts = split_char(category, '.');
        proof {
            lemma_split_at_char_len(category@, '.');
            lemma_last_comp_split(category@);
            assert(lines_view(parts@)[parts@.len() - 1] == last_comp(category@));
        }
        let lastp = parts[parts.len() - 1].clone();
        let ind = spaces(4 * depth);
        let mut open_line = ind.clone();
        open_line.append(lastp.as_str());
        proof {
            reveal_strlit(" {");
            reveal_strlit("}");
        }
        open_line.append(" {");
        let mut close_line = ind;
        close_line.append("}");
        proof {
            assert(open_line@ =~= spec_spaces(4 * depth as int) + last_comp(category@)
                + seq![' ', '{']);
            assert(close_line@ =~= spec_spaces(4 * depth as int) + seq!['}']);
        }
        let p = *insert_pos;
        let mut la: usize = 0;
        if p > 0 {
            let prev = trim_str(self.content[p - 1].as_str());
            proof {
                assert(lines_view(self.content@)[p - 1] == self.content@[p - 1]@);
            }
            if prev.as_str().unicode_len() > 0 {
                insert_line(&mut self.content, p, String::new());
                *insert_pos = *insert_pos + 1;
                la = 1;
            }
        }
        proof {
            assert(la as int == blank_before(m0.content, p0));
        }
        insert_line(&mut self.content, *insert_pos, open_line);
        *insert_pos = *insert_pos + 1;
        insert_line(&mut self.content, *insert_pos, close_line);
        *insert_pos = *insert_pos + 1;
        insert_line(&mut self.content, *insert_pos, String::new());
        *insert_pos = *insert_pos + 1;
        proof {
            assert(lines_view(self.content@) == spec_create(m0, category@, depth as int,
                p0).content);
            assert forall|j: int| 0 <= j < secs_m(self.sections@).len() implies {
                let rr = #[trigger] secs_m(self.sections@)[j];
                0 <= rr.1 <= rr.2 && rr.2 + (3 + la) < usize::MAX
            } by {
                assert(secs_m(self.sections@)[j] == m0.sections[j]);
            }
        }
        self.update_sections(p, 3 + la);
        proof {
            lemma_set_section_frame(shift_all(m0.sections, p0, 3 + la as int), category@, p0
                + la as int, p0 + la + 1);
            lemma_set_section_find(shift_all(m0.sections, p0, 3 + la as int), category@, p0
                + la as int, p0 + la + 1);
        }
        sections_set(&mut self.sections, category.to_owned(), p + la, p + la + 1);
        proof {
            assert(self.m() =~~= spec_create(m0, category@, depth as int, p0));
            let sm = self.m();
            assert forall|j: int| 0 <= j < sm.sections.len() implies {
                let rr = #[trigger] sm.sections[j];
                0 <= rr.1 <= rr.2 < sm.content.len()
            } by {
                let shifted = shift_all(m0.sections, p0, 3 + la as int);
                if sm.sections[j] == (category@, p0 + la as int, p0 + la + 1) {
                } else {
                    assert(sm.sections[j] == shifted[j]);
                    assert(shifted[j] == shift_rec(m0.sections[j], p0, 3 + la as int));
                }
            }
        }
    }
}

impl HyprlandConfig {
    /// The first file-backed sourced buffer that records a section named
    /// `category`, with that section's line range.
    pub fn find_sourced_section(&self, category: &str) -> (r: Option<(usize, (usize, usize))>)
        ensures
            match r {
                Some(f) => ({
                    let k = find_sname_from(self.m().sourced_sections, category@, f.0 as int, 0);
                    f.0 as int == spec_find_sourced(self.m(), category@, 0) && k >= 0
                        && f.1.0 as int == self.m().sourced_sections[k].2 && f.1.1 as int
                        == self.m().sourced_sections[k].3
                }),
                None => spec_find_sourced(self.m(), category@, 0) == -1,
            },
    {
        let ghost m = self.m();
        let mut idx: usize = 0;
        while idx < self.sourced_content.len()
            invariant
                0 <= idx <= self.sourced_content@.len(),
                m == self.m(),
                spec_find_sourced(m, category@, 0) == spec_find_sourced(m, category@, idx as int),
            decreases self.sourced_content@.len() - idx,
        {
            match ssections_find(&self.sourced_sections, category, idx) {
                Some(k) => {
                    if idx < self.sourced_paths.len() && self.sourced_paths[idx].as_str()
                        .unicode_len() > 0 {
                        proof {
                            assert(m.sourced_paths[idx as int] == self.sourced_paths@[
                                idx as int]@);
                            assert(spec_find_sourced(m, category@, idx as int) == idx as int);
                            assert(ssecs_m(self.sourced_sections@)[k as int] == (
                            self.sourced_sections@[k as int].name@,
                            self.sourced_sections@[k as int].buffer as int,
                            self.sourced_sections@[k as int].start as int,
                            self.sourced_sections@[k as int].end as int,
                            ));
                        }
                        let s = self.sourced_sections[k].start;
                        let e = self.sourced_sections[k].end;
                        return Some((idx, (s, e)));
                    } else {
                        proof {
                            assert(idx < self.sourced_paths@.len() ==> m.sourced_paths[
                                idx as int] == self.sourced_paths@[idx as int]@);
                        }
                    }
                },
                None => {},
            }
            idx = idx + 1;
        }
        None
    }

    /// Walk the dotted path through the primary buffer, creating each
    /// missing section; apply the entry at the leaf section.
    fn walk_primary(&mut self, parts: &Vec<String>, i: usize, ip: usize, entry: &str)
        requires
            wf_model(old(self).m()),
            i < parts@.len(),
            ip <= old(self).m().content.len(),
            4 * parts@.len() + 8 <= usize::MAX,
            old(self).m().content.len() + 8 * (parts@.len() - i) <= usize::MAX,
        ensures
            final(self).m() == spec_walk(old(self).m(), lines_view(parts@), i as int, ip as int,
                entry@),
            wf_model(final(self).m()),
        decreases parts@.len() - i,
    {
        let ghost m0 = self.m();
        let ghost pv = lines_view(parts@);
        let cur = join_parts(parts, i + 1);
        proof {
            assert(cur@ == cur_name(pv, i as int));
        }
        let mut ipos = ip;
        let missing = match sections_find(&self.sections, cur.as_str()) {
            Some(_) => false,
            None => true,
        };
        if missing {
            self.create_category(cur.as_str(), i, &mut ipos);
        }
        let ghost m1 = self.m();
        proof {
            if find_name_from(m0.sections, cur@, 0) < 0 {
                let la = blank_before(m0.content, ip as int);
                lemma_set_section_find(shift_all(m0.sections, ip as int, 3 + la), cur@, ip + la,
                    ip + la + 1);
            } else {
                lemma_find_name_from(m0.sections, cur@, 0);
            }
            assert(find_name_from(m1.sections, cur@, 0) >= 0);
        }
        let k = match sections_find(&self.sections, cur.as_str()) {
            Some(k) => k,
            None => {
                proof {
                    assert(false);
                }
                unreached()
            },
        };
        proof {
            assert(secs_m(self.sections@)[k as int] == (self.sections@[k as int].name@,
            self.sections@[k as int].start as int, self.sections@[k as int].end as int));
        }
        let s = self.sections[k].start;
        let e = self.sections[k].end;
        proof {
            assert(m1.sections[k as int] == (cur@, s as int, e as int) || m1.sections[
                k as int].1 == s as int && m1.sections[k as int].2 == e as int);
            assert(0 <= s <= e < m1.content.len());
        }
        if i + 1 == parts.len() {
            let key = key_of_exec(entry);
            let mut formatted = spaces(4 * (i + 1));
            formatted.append(entry);
            proof {
                assert(formatted@ =~= spec_spaces(4 * (i as int + 1)) + entry@);
            }
            match find_key_line(&self.content, s, e, key.as_str()) {
                Some(ln) => {
                    set_line(&mut self.content, ln, formatted);
                    proof {
                        assert(self.m() =~~= ConfigModel {
                            content: m1.content.update(ln as int, spec_spaces(4 * (i as int + 1))
                                + entry@),
                            ..m1
                        });
                    }
                },
                None => {
                    insert_line(&mut self.content, e, formatted);
                    proof {
                        assert forall|j: int| 0 <= j < secs_m(self.sections@).len() implies {
                            let rr = #[trigger] secs_m(self.sections@)[j];
                            0 <= rr.1 <= rr.2 && rr.2 + 1 < usize::MAX
                        } by {
                            assert(secs_m(self.sections@)[j] == m1.sections[j]);
                        }
                    }
                    self.update_sections(e, 1);
                    proof {
                        assert(self.m() =~~= ConfigModel {
                            content: m1.content.insert(e as int, spec_spaces(4 * (i as int + 1))
                                + entry@),
                            sections: shift_all(m1.sections, e as int, 1),
                            ..m1
                        });
                        let sm = self.m();
                        assert forall|j: int| 0 <= j < sm.sections.len() implies {
                            let rr = #[trigger] sm.sections[j];
                            0 <= rr.1 <= rr.2 < sm.content.len()
                        } by {
                            assert(sm.sections[j] == shift_rec(m1.sections[j], e as int, 1));
                        }
                        assert forall|j: int, t: int| 0 <= j < t < sm.sections.len() implies
                            sm.sections[j].0 != sm.sections[t].0 by {
                            assert(sm.sections[j] == shift_rec(m1.sections[j], e as int, 1));
                            assert(sm.sections[t] == shift_rec(m1.sections[t], e as int, 1));
                        }
                    }
                },
            }
        } else {
            self.walk_primary(parts, i + 1, e, entry);
        }
    }

    /// Add a `key = value` entry under the dotted `category` path.  When
    /// the parent category lives in a file-backed sourced buffer, the edit
    /// happens there and the buffer's new text is returned with its
    /// backing path, for the caller to persist; otherwise the primary
    /// buffer is edited in place and there is nothing to persist.
    #[verifier::rlimit(60)]
    pub fn add_entry(&mut self, category: &str, entry: &str) -> (r: Option<WriteRequest>)
        requires
            wf_model(old(self).m()),
            4 * category@.len() + 32 <= usize::MAX,
            old(self).m().content.len() + 8 * category@.len() + 32 <= usize::MAX,
            forall|b: int| 0 <= b < old(self).m().sourced_content.len()
                ==> (#[trigger] old(self).m().sourced_content[b]).len() + 8 <= usize::MAX,
        ensures
            final(self).m() == spec_add_entry(old(self).m(), category@, entry@),
            match r {
                Some(w) => spec_write_request(old(self).m(), category@, entry@) == Some((w.path@,
                w.content@)),
                None => spec_write_request(old(self).m(), category@, entry@) is None,
            },
            wf_model(final(self).m()),
    {
        let ghost m0 = self.m();
        let parts = split_char(category, '.');
        let ghost pv = lines_view(parts@);
        proof {
            lemma_split_at_char_len(category@, '.');
            lemma_split_at_char_count(category@, '.');
        }
        let parent = if parts.len() > 1 {
            join_parts(&parts, parts.len() - 1)
        } else {
            category.to_owned()
        };
        proof {
            assert(parent@ == parent_of(category@));
        }
        match self.find_sourced_section(parent.as_str()) {
            Some(found) => {
                let idx = found.0;
                let ps = found.1.0;
                let pe = found.1.1;
                proof {
                    lemma_spec_find_sourced(m0, parent@, 0);
                }
                let ghost pk = find_sname_from(m0.sourced_sections, parent@, idx as int, 0);
                let sub = ssections_find(&self.sourced_sections, category, idx);
                let ghost ck = find_sname_from(m0.sourced_sections, category@, idx as int, 0);
                let mut buf = self.sourced_content.remove(idx);
                let ghost b0 = lines_view(buf@);
                let ghost removed = self.m().sourced_content;
                proof {
                    assert(b0 == m0.sourced_content[idx as int]);
                    assert forall|j: int| 0 <= j < removed.len() implies removed[j]
                        == m0.sourced_content.remove(idx as int)[j] by {
                        if j < idx {
                            assert(self.sourced_content@[j] == old(self).sourced_content@[j]);
                        } else {
                            assert(self.sourced_content@[j] == old(self).sourced_content@[j + 1]);
                        }
                    }
                    assert(removed =~= m0.sourced_content.remove(idx as int));
                    lemma_find_sname_from(m0.sourced_sections, parent@, idx as int, 0);
                    assert(0 <= m0.sourced_sections[pk].2 <= m0.sourced_sections[pk].3
                        < b0.len());
                    assert(ps as int == m0.sourced_sections[pk].2);
                    assert(pe as int == m0.sourced_sections[pk].3);
                    assert(b0.len() + 8 <= usize::MAX);
                }
                let is_create = parts.len() > 1 && sub.is_none();
                if is_create {
                    let dp = parts.len() - 2;
                    let lastp = parts[parts.len() - 1].clone();
                    proof {
                        reveal_strlit(" {");
                        reveal_strlit("}");
                        assert(lastp@ == pv.last());
                    }
                    let ind1 = spaces(4 * (dp + 1));
                    let mut open_line = ind1.clone();
                    open_line.append(lastp.as_str());
                    open_line.append(" {");
                    let mut entry_line = spaces(4 * (dp + 2));
                    entry_line.append(entry);
                    let mut close_line = ind1;
                    close_line.append("}");
                    proof {
                        assert(open_line@ =~= spec_spaces(4 * (dp + 1) as int) + pv.last()
                            + seq![' ', '{']);
                        assert(entry_line@ =~= spec_spaces(4 * (dp + 2) as int) + entry@);
                        assert(close_line@ =~= spec_spaces(4 * (dp + 1) as int) + seq!['}']);
                    }
                    let mut la: usize = 0;
                    if pe > 0 {
                        let prev = trim_str(buf[pe - 1].as_str());
                        proof {
                            assert(lines_view(buf@)[pe - 1] == buf@[pe - 1]@);
                        }
                        if prev.as_str().unicode_len() > 0 {
                            insert_line(&mut buf, pe, String::new());
                            la = 1;
                        }
                    }
                    proof {
                        assert(la as int == blank_before(b0, pe as int));
                    }
                    insert_line(&mut buf, pe + la, open_line);
                    insert_line(&mut buf, pe + la + 1, entry_line);
                    insert_line(&mut buf, pe + la + 2, close_line);
                    proof {
                        assert forall|j: int| 0 <= j < ssecs_m(self.sourced_sections@).len()
                            implies {
                            let rr = #[trigger] ssecs_m(self.sourced_sections@)[j];
                            0 <= rr.2 <= rr.3 && rr.3 + (3 + la) < usize::MAX
                        } by {
                            assert(ssecs_m(self.sourced_sections@)[j] == m0.sourced_sections[j]);
                        }
                    }
                    self.update_sourced_sections(idx, pe, 3 + la);
                    proof {
                        lemma_set_ssection_frame(shift_buf(m0.sourced_sections, idx as int,
                            pe as int, 3 + la as int), category@, idx as int, pe + la as int, pe
                            + la + 2);
                    }
                    ssections_set(&mut self.sourced_sections, category.to_owned(), idx, pe + la,
                        pe + la + 2);
                } else {
                    let (ss, se) = match sub {
                        Some(kk) => {
                            proof {
                                assert(ssecs_m(self.sourced_sections@)[kk as int] == (
                                self.sourced_sections@[kk as int].name@,
                                self.sourced_sections@[kk as int].buffer as int,
                                self.sourced_sections@[kk as int].start as int,
                                self.sourced_sections@[kk as int].end as int,
                                ));
                                lemma_find_sname_from(m0.sourced_sections, category@, idx as int,
                                    0);
                            }
                            (self.sourced_sections[kk].start, self.sourced_sections[kk].end)
                        },
                        None => (ps, pe),
                    };
                    proof {
                        assert(0 <= ss <= se < b0.len());
                    }
                    let mut formatted = spaces(4 * parts.len());
                    formatted.append(entry);
                    proof {
                        assert(formatted@ =~= spec_spaces(4 * pv.len() as int) + entry@);
                    }
                    match find_key_line(&buf, ss, se, key_of_exec(entry).as_str()) {
                        Some(ln) => {
                            set_line(&mut buf, ln, formatted);
                        },
                        None => {
                            insert_line(&mut buf, se, formatted);
                            proof {
                                assert forall|j: int| 0 <= j < ssecs_m(
                                    self.sourced_sections@,
                                ).len() implies {
                                    let rr = #[trigger] ssecs_m(self.sourced_sections@)[j];
                                    0 <= rr.2 <= rr.3 && rr.3 + 1 < usize::MAX
                                } by {
                                    assert(ssecs_m(self.sourced_sections@)[j]
                                        == m0.sourced_sections[j]);
                                }
                            }
                            self.update_sourced_sections(idx, se, 1);
                        },
                    }
                }
                let text = crate::text::join_with_from(&buf, 0, '\n');
                proof {
                    assert(lines_view(buf@).subrange(0, buf@.len() as int) =~= lines_view(buf@));
                }
                let path = self.sourced_paths[idx].clone();
                let ghost nb = lines_view(buf@);
                proof {
                    assert(self.m().sourced_content == removed);
                    assert(self.sourced_content@.len() == removed.len());
                    assert(idx as int <= self.sourced_content@.len());
                }
                let ghost pre = self.sourced_content@;
                self.sourced_content.insert(idx, buf);
                proof {
                    let sm = self.m();
                    let spec_m = spec_add_sourced(m0, idx as int, pv, category@, entry@);
                    assert forall|j: int| 0 <= j < sm.sourced_content.len() implies
                        sm.sourced_content[j] == m0.sourced_content.update(idx as int, nb)[j] by {
                        if j < idx {
                            assert(self.sourced_content@[j] == pre[j]);
                            assert(sm.sourced_content[j] == removed[j]);
                            assert(removed[j] == m0.sourced_content.remove(idx as int)[j]);
                        } else if j == idx {
                            assert(self.sourced_content@[j] == buf);
                        } else {
                            assert(self.sourced_content@[j] == pre[j - 1]);
                            assert(sm.sourced_content[j] == removed[j - 1]);
                            assert(removed[j - 1] == m0.sourced_content.remove(idx as int)[j - 1]);
                        }
                    }
                    assert(sm.sourced_content =~= m0.sourced_content.update(idx as int, nb));
                    assert(sm =~~= spec_m);
                    assert(path@ == m0.sourced_paths[idx as int]);
                    assert(text@ == join_with(spec_m.sourced_content[idx as int], '\n'));
                    lemma_add_sourced_wf(m0, idx as int, pv, category@, entry@);
                    assert(wf_model(sm));
                }
                Some(WriteRequest { path, content: text })
            },
            None => {
                let ip = self.content.len();
                self.walk_primary(&parts, 0, ip, entry);
                None
            },
        }
    }
}

} // verus!
