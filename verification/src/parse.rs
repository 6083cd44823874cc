//! The document parser: a single forward pass over the lines of a text.
//! A line ending in `{` opens a section; a bare `}` closes the innermost
//! open section and records its dotted name and line range; in a primary
//! parse a line starting with `source` names a file to include, with
//! `$VAR` substitution and path resolution.  Every line is kept verbatim,
//! so the buffer reproduces the text exactly.

use vstd::prelude::*;
use vstd::string::*;

use crate::model::{ConfigModel, HyprlandConfig, SecM, SSecM, secs_m, ssecs_m, wf_model};
use crate::index::{lemma_set_section_frame, lemma_set_ssection_frame, sections_set, set_section,
    set_ssection, ssections_set};
use crate::text::{find_char, find_from, join_with, last_char_is, lemma_find_from, lines_view,
    spec_lines, spec_replace, spec_starts_with, spec_trim, split_lines, starts_with_str, str_eq,
    strip_trailing, strip_trailing_str, trim_str, replace_all};

verus! {

/// `s` up to its first `#`, the comment marker.
pub open spec fn strip_comment(s: Seq<char>) -> Seq<char> {
    let k = find_from(s, '#', 0);
    if k < 0 {
        s
    } else {
        s.subrange(0, k)
    }
}

/// The value to the right of the `=` at position `eq` of a line: the rest
/// of the line up to any comment marker, trimmed.
pub open spec fn spec_rhs_value(t: Seq<char>, eq: int) -> Seq<char> {
    spec_trim(strip_comment(t.subrange(eq + 1, t.len() as int)))
}

/// The name before the opening brace of a section line.
pub open spec fn sec_name(t: Seq<char>) -> Seq<char> {
    spec_trim(strip_trailing(spec_trim(t), '{'))
}

/// A variable table: names (without the leading `$`) with their expanded
/// values, in definition order.
pub type VarsM = Seq<(Seq<char>, Seq<char>)>;

/// Index of the first variable named `name` at or after `i`, or `-1`.
pub open spec fn find_var_from(vars: VarsM, name: Seq<char>, i: int) -> int
    decreases vars.len() - i,
{
    if i < 0 || i >= vars.len() {
        -1
    } else if vars[i].0 == name {
        i
    } else {
        find_var_from(vars, name, i + 1)
    }
}

/// Define or redefine a variable.
pub open spec fn var_set(vars: VarsM, name: Seq<char>, val: Seq<char>) -> VarsM {
    let k = find_var_from(vars, name, 0);
    if k < 0 {
        vars.push((name, val))
    } else {
        vars.update(k, (name, val))
    }
}

/// `s` with every known `$name` occurrence replaced by that variable's
/// value, in table order.
pub open spec fn expand_vars(s: Seq<char>, vars: VarsM) -> Seq<char>
    decreases vars.len(),
{
    if vars.len() == 0 {
        s
    } else {
        expand_vars(spec_replace(s, seq!['$'] + vars[0].0, vars[0].1), vars.drop_first())
    }
}

/// The variable table built by scanning the lines from `i` on: a trimmed
/// line `$name = value` (value up to any comment, trimmed) defines `name`,
/// its value expanded with the variables known so far.
pub open spec fn build_vars(lines: Seq<Seq<char>>, i: int, acc: VarsM) -> VarsM
    decreases lines.len() - i,
{
    if i < 0 || i >= lines.len() {
        acc
    } else {
        let t = spec_trim(lines[i]);
        let k = find_from(t, '=', 0);
        let acc2 = if k >= 0 && spec_trim(t.subrange(0, k)).len() > 0 && spec_trim(
            t.subrange(0, k),
        )[0] == '$' {
            var_set(
                acc,
                spec_trim(t.subrange(0, k)).drop_first(),
                expand_vars(spec_rhs_value(t, k), acc),
            )
        } else {
            acc
        };
        build_vars(lines, i + 1, acc2)
    }
}

/// Where an included file lives: an absolute path stands; `~` stands for
/// the home directory; anything else is relative to the user's
/// configuration directory.
pub open spec fn resolve_path(p: Seq<char>, home: Seq<char>) -> Seq<char> {
    if p.len() > 0 && p[0] == '/' {
        p
    } else if p.len() > 0 && p[0] == '~' {
        home + p.drop_first()
    } else {
        home + "/.config/hypr/"@ + p
    }
}

/// The resolved paths named by `source = path` lines from `i` on, in order.
pub open spec fn source_paths(lines: Seq<Seq<char>>, i: int, vars: VarsM, home: Seq<char>)
    -> Seq<Seq<char>>
    decreases lines.len() - i,
{
    if i < 0 || i >= lines.len() {
        Seq::empty()
    } else {
        let t = spec_trim(lines[i]);
        let cur = if spec_starts_with(t, "source"@) && find_from(t, '=', 0) >= 0 {
            seq![resolve_path(expand_vars(spec_rhs_value(t, find_from(t, '=', 0)), vars), home)]
        } else {
            Seq::<Seq<char>>::empty()
        };
        cur + source_paths(lines, i + 1, vars, home)
    }
}

/// The names of the open sections, outermost first.
pub open spec fn stack_names(stack: Seq<(Seq<char>, int)>) -> Seq<Seq<char>> {
    Seq::new(stack.len(), |j: int| stack[j].0)
}

/// The section records produced by scanning the lines from `i` on with
/// the given stack of open sections.  `base` is added to every line
/// number, so records index the whole buffer the lines are appended to.
/// When `skip_source` is set (a primary parse), a line starting with
/// `source` takes no part in section structure.
pub open spec fn scan(
    lines: Seq<Seq<char>>,
    i: int,
    base: int,
    stack: Seq<(Seq<char>, int)>,
    acc: Seq<SecM>,
    skip_source: bool,
) -> Seq<SecM>
    decreases lines.len() - i,
{
    if i < 0 || i >= lines.len() {
        acc
    } else {
        let t = spec_trim(lines[i]);
        if skip_source && spec_starts_with(t, "source"@) {
            scan(lines, i + 1, base, stack, acc, skip_source)
        } else if t.len() > 0 && t[t.len() - 1] == '{' {
            scan(lines, i + 1, base, stack.push((sec_name(lines[i]), base + i)), acc, skip_source)
        } else if t == seq!['}'] && stack.len() > 0 {
            let full = join_with(stack_names(stack), '.');
            scan(
                lines,
                i + 1,
                base,
                stack.drop_last(),
                acc.push((full, stack.last().1, base + i)),
                skip_source,
            )
        } else {
            scan(lines, i + 1, base, stack, acc, skip_source)
        }
    }
}

/// The scan's records folded into a primary index, earlier records first;
/// a later record of the same name overwrites an earlier one.
pub open spec fn set_sections_all(m: Seq<SecM>, recs: Seq<SecM>, i: int) -> Seq<SecM>
    decreases recs.len() - i,
{
    if i < 0 || i >= recs.len() {
        m
    } else {
        set_sections_all(set_section(m, recs[i].0, recs[i].1, recs[i].2), recs, i + 1)
    }
}

/// The scan's records folded into the sourced index for buffer `buf`.
pub open spec fn set_ssections_all(m: Seq<SSecM>, buf: int, recs: Seq<SecM>, i: int)
    -> Seq<SSecM>
    decreases recs.len() - i,
{
    if i < 0 || i >= recs.len() {
        m
    } else {
        set_ssections_all(set_ssection(m, recs[i].0, buf, recs[i].1, recs[i].2), buf, recs, i + 1)
    }
}

/// A primary parse appends the text's lines to the primary buffer and
/// folds the scanned section records into the primary index.
pub open spec fn spec_parse_primary(m: ConfigModel, text: Seq<char>, home: Seq<char>)
    -> ConfigModel {
    let ls = spec_lines(text);
    ConfigModel {
        content: m.content + ls,
        sections: set_sections_all(
            m.sections,
            scan(ls, 0, m.content.len() as int, Seq::empty(), Seq::empty(), true),
            0,
        ),
        ..m
    }
}

/// The include paths a primary parse resolves, in line order: the variable
/// table is built from the whole text with `HOME` pre-seeded, and every
/// `source = path` line yields one expanded, resolved path.
pub open spec fn spec_primary_paths(text: Seq<char>, home: Seq<char>) -> Seq<Seq<char>> {
    let ls = spec_lines(text);
    source_paths(ls, 0, build_vars(ls, 0, seq![("HOME"@, home)]), home)
}

/// A sourced parse appends one new buffer holding the text's lines and
/// folds the scanned records, tagged with the new buffer's index, into
/// the sourced index.  `source` lines are not expanded again.
pub open spec fn spec_parse_sourced(m: ConfigModel, text: Seq<char>) -> ConfigModel {
    let ls = spec_lines(text);
    ConfigModel {
        sourced_content: m.sourced_content.push(ls),
        sourced_sections: set_ssections_all(
            m.sourced_sections,
            m.sourced_content.len() as int,
            scan(ls, 0, 0, Seq::empty(), Seq::empty(), false),
            0,
        ),
        ..m
    }
}

/// The names and start lines of the open sections, innermost last.
pub open spec fn stack_m(v: Seq<(String, usize)>) -> Seq<(Seq<char>, int)> {
    Seq::new(v.len(), |j: int| (v[j].0@, v[j].1 as int))
}

/// The table's names and values.
pub open spec fn vars_m(v: Seq<(String, String)>) -> VarsM {
    Seq::new(v.len(), |j: int| (v[j].0@, v[j].1@))
}

/// The value to the right of the `=` at position `eq` of line `t`.
fn rhs_value(t: &str, eq: usize) -> (r: String)
    requires
        eq < t@.len(),
    ensures
        r@ == spec_rhs_value(t@, eq as int),
{
    let n = t.unicode_len();
    let after = t.substring_char(eq + 1, n);
    proof {
        lemma_find_from(after@, '#', 0);
    }
    match find_char(after, '#') {
        Some(h) => trim_str(after.substring_char(0, h)),
        None => {
            proof {
                assert(strip_comment(after@) == after@);
            }
            trim_str(after)
        },
    }
}

/// Define or redefine a variable in the table.
fn vars_set_exec(vars: &mut Vec<(String, String)>, name: String, val: String)
    ensures
        vars_m(final(vars)@) == var_set(vars_m(old(vars)@), name@, val@),
{
    let ghost m0 = vars_m(vars@);
    let mut i: usize = 0;
    while i < vars.len()
        invariant
            0 <= i <= vars@.len(),
            vars@.len() == m0.len(),
            vars_m(vars@) == m0,
            m0 == vars_m(old(vars)@),
            find_var_from(m0, name@, 0) == find_var_from(m0, name@, i as int),
        decreases vars@.len() - i,
    {
        proof {
            assert(m0[i as int] == (vars@[i as int].0@, vars@[i as int].1@));
        }
        if str_eq(vars[i].0.as_str(), name.as_str()) {
            proof {
                assert(find_var_from(m0, name@, i as int) == i as int);
            }
            vars.set(i, (name, val));
            proof {
                assert(vars_m(vars@) =~= m0.update(i as int, (name@, val@)));
            }
            return;
        }
        i = i + 1;
    }
    vars.push((name, val));
    proof {
        assert(vars_m(vars@) =~= m0.push((name@, val@)));
    }
}

/// `s` with every known `$name` replaced by its value, in table order.
fn expand_vars_exec(s: &str, vars: &Vec<(String, String)>) -> (r: String)
    ensures
        r@ == expand_vars(s@, vars_m(vars@)),
{
    let ghost vm = vars_m(vars@);
    let mut cur = s.to_owned();
    let mut i: usize = 0;
    proof {
        assert(vm.subrange(0, vm.len() as int) =~= vm);
    }
    while i < vars.len()
        invariant
            0 <= i <= vars@.len(),
            vm == vars_m(vars@),
            expand_vars(cur@, vm.subrange(i as int, vm.len() as int)) == expand_vars(s@, vm),
        decreases vars@.len() - i,
    {
        let ghost pre = cur@;
        proof {
            reveal_strlit("$");
            assert(vm[i as int] == (vars@[i as int].0@, vars@[i as int].1@));
        }
        let mut pat = "$".to_owned();
        pat.append(vars[i].0.as_str());
        proof {
            assert(pat@ =~= seq!['$'] + vm[i as int].0);
            assert(pat@.len() > 0);
        }
        let next = replace_all(cur.as_str(), pat.as_str(), vars[i].1.as_str());
        cur = next;
        proof {
            let tail = vm.subrange(i as int, vm.len() as int);
            assert(tail[0] == vm[i as int]);
            assert(tail.drop_first() =~= vm.subrange(i + 1, vm.len() as int));
            assert(expand_vars(pre, tail) == expand_vars(cur@, tail.drop_first()));
        }
        i = i + 1;
    }
    proof {
        assert(vm.subrange(vm.len() as int, vm.len() as int) =~= Seq::<(Seq<char>,
            Seq<char>)>::empty());
    }
    cur
}

/// Resolve an include path against the home directory.
fn resolve_source_path(p: &str, home: &str) -> (r: String)
    ensures
        r@ == resolve_path(p@, home@),
{
    let n = p.unicode_len();
    if n > 0 && p.get_char(0) == '/' {
        p.to_owned()
    } else if n > 0 && p.get_char(0) == '~' {
        let mut r = home.to_owned();
        let rest = p.substring_char(1, n);
        r.append(rest);
        proof {
            assert(r@ =~= home@ + p@.drop_first());
        }
        r
    } else {
        proof {
            reveal_strlit("/.config/hypr/");
        }
        let mut r = home.to_owned();
        r.append("/.config/hypr/");
        r.append(p);
        proof {
            assert(r@ =~= home@ + "/.config/hypr/"@ + p@);
        }
        r
    }
}

/// The dotted full name of a section: the open outer names joined with
/// `.`, then the innermost name.
fn dotted_name(stack: &Vec<(String, usize)>, last: &str) -> (r: String)
    ensures
        r@ == join_with(stack_names(stack_m(stack@)).push(last@), '.'),
{
    let mut parts: Vec<String> = Vec::new();
    let mut i: usize = 0;
    while i < stack.len()
        invariant
            0 <= i <= stack@.len(),
            parts@.len() == i as int,
            lines_view(parts@) =~= stack_names(stack_m(stack@)).subrange(0, i as int),
        decreases stack@.len() - i,
    {
        let piece = stack[i].0.clone();
        proof {
            assert(piece@ == stack@[i as int].0@);
        }
        parts.push(piece);
        proof {
            assert(parts@.len() == i + 1);
            assert(lines_view(parts@)[i as int] == stack@[i as int].0@);
            assert(stack_names(stack_m(stack@))[i as int] == stack@[i as int].0@);
            assert(lines_view(parts@) =~= stack_names(stack_m(stack@)).subrange(0, i + 1));
        }
        i = i + 1;
    }
    let ghost pn = parts@.len() as int;
    parts.push(last.to_owned());
    proof {
        assert(parts@.len() == pn + 1);
        assert(stack_names(stack_m(stack@)).subrange(0, pn) =~= stack_names(stack_m(stack@)));
        assert(lines_view(parts@)[pn] == last@);
        assert(lines_view(parts@) =~= stack_names(stack_m(stack@)).push(last@));
    }
    let r = crate::text::join_with_from(&parts, 0, '.');
    proof {
        assert(lines_view(parts@).subrange(0, parts@.len() as int) =~= lines_view(parts@));
    }
    r
}

/// The table of `$name = value` definitions found in the lines, in order,
/// each value expanded with the variables known at its own definition;
/// `HOME` is pre-seeded from the caller.
fn build_vars_exec(lines: &Vec<String>, home: &str) -> (vars: Vec<(String, String)>)
    ensures
        vars_m(vars@) == build_vars(lines_view(lines@), 0, seq![("HOME"@, home@)]),
{
    let ghost ls = lines_view(lines@);
    let mut vars: Vec<(String, String)> = Vec::new();
    vars.push(("HOME".to_owned(), home.to_owned()));
    proof {
        assert(vars_m(vars@) =~= seq![("HOME"@, home@)]);
    }
    let ghost seed = vars_m(vars@);
    let mut i: usize = 0;
    while i < lines.len()
        invariant
            0 <= i <= lines@.len(),
            ls == lines_view(lines@),
            build_vars(ls, i as int, vars_m(vars@)) == build_vars(ls, 0, seed),
        decreases lines@.len() - i,
    {
        let ghost vm0 = vars_m(vars@);
        let trimmed = trim_str(lines[i].as_str());
        proof {
            assert(ls[i as int] == lines@[i as int]@);
            lemma_find_from(trimmed@, '=', 0);
        }
        match find_char(trimmed.as_str(), '=') {
            Some(k) => {
                let var = trim_str(trimmed.as_str().substring_char(0, k));
                let vn = var.as_str().unicode_len();
                if vn > 0 && var.as_str().get_char(0) == '$' {
                    let name = var.as_str().substring_char(1, vn).to_owned();
                    proof {
                        assert(name@ =~= var@.drop_first());
                    }
                    let raw = rhs_value(trimmed.as_str(), k);
                    let val = expand_vars_exec(raw.as_str(), &vars);
                    vars_set_exec(&mut vars, name, val);
                    proof {
                        assert(build_vars(ls, i as int, vm0) == build_vars(ls, i + 1, vars_m(
                            vars@,
                        )));
                    }
                } else {
                    proof {
                        assert(build_vars(ls, i as int, vm0) == build_vars(ls, i + 1, vm0));
                    }
                }
            },
            None => {
                proof {
                    assert(build_vars(ls, i as int, vm0) == build_vars(ls, i + 1, vm0));
                }
            },
        }
        i = i + 1;
    }
    vars
}

impl HyprlandConfig {
    /// A primary parse: append the text's lines to the primary buffer,
    /// record every closed section in the primary index, and return the
    /// resolved paths of the files the text asks to include, in order.
    /// Reading those files is the caller's task; each successfully read
    /// text is then handed to a sourced parse.
    fn parse_primary(&mut self, config_str: &str, home: &str) -> (r: Vec<String>)
        requires
            wf_model(old(self).m()),
        ensures
            final(self).m() == spec_parse_primary(old(self).m(), config_str@, home@),
            lines_view(r@) == spec_primary_paths(config_str@, home@),
            wf_model(final(self).m()),
    {
        let ghost m0 = self.m();
        let lines = split_lines(config_str);
        let ghost ls = lines_view(lines@);
        let ghost base = self.content@.len() as int;
        let vars = build_vars_exec(&lines, home);
        let ghost vm = vars_m(vars@);
        let mut out: Vec<String> = Vec::new();
        let mut stack: Vec<(String, usize)> = Vec::new();
        let ghost mut acc: Seq<SecM> = Seq::empty();
        proof {
            assert(stack_m(stack@) =~= Seq::<(Seq<char>, int)>::empty());
            assert(lines_view(self.content@) =~= m0.content + ls.subrange(0, 0));
            assert(lines_view(out@) =~= Seq::<Seq<char>>::empty());
            assert(lines_view(out@) + source_paths(ls, 0, vm, home@) =~= source_paths(
                ls,
                0,
                vm,
                home@,
            ));
            assert(m0.sections == secs_m(self.sections@));
            assert forall|j: int| 0 <= j < secs_m(self.sections@).len() implies {
                let rr = #[trigger] secs_m(self.sections@)[j];
                0 <= rr.1 <= rr.2 < base
            } by {
                assert(m0.sections[j] == secs_m(self.sections@)[j]);
            }
        }
        let mut i: usize = 0;
        while i < lines.len()
            invariant
                0 <= i <= lines@.len(),
                ls == lines_view(lines@),
                vm == vars_m(vars@),
                m0 == old(self).m(),
                wf_model(m0),
                base == m0.content.len(),
                self.content@.len() as int == base + i,
                lines_view(self.content@) == m0.content + ls.subrange(0, i as int),
                self.sourced_content == old(self).sourced_content,
                self.sourced_sections == old(self).sourced_sections,
                self.sourced_paths == old(self).sourced_paths,
                scan(ls, i as int, base, stack_m(stack@), acc, true) == scan(
                    ls,
                    0,
                    base,
                    Seq::empty(),
                    Seq::empty(),
                    true,
                ),
                secs_m(self.sections@) == set_sections_all(m0.sections, acc, 0),
                lines_view(out@) + source_paths(ls, i as int, vm, home@) == source_paths(
                    ls,
                    0,
                    vm,
                    home@,
                ),
                forall|j: int| 0 <= j < stack@.len() ==> base <= (
                #[trigger] stack_m(stack@)[j]).1 < base + i,
                forall|j: int| 0 <= j < secs_m(self.sections@).len() ==> {
                    let rr = #[trigger] secs_m(self.sections@)[j];
                    0 <= rr.1 <= rr.2 < base + i
                },
                forall|j: int, k: int| 0 <= j < k < secs_m(self.sections@).len() ==> secs_m(
                    self.sections@,
                )[j].0 != secs_m(self.sections@)[k].0,
            decreases lines@.len() - i,
        {
            let ghost sm_pre = stack_m(stack@);
            let ghost acc_pre = acc;
            let ghost secs_pre = secs_m(self.sections@);
            let ghost out_pre = lines_view(out@);
            let line_owned = lines[i].clone();
            let trimmed = trim_str(line_owned.as_str());
            let ghost t = spec_trim(ls[i as int]);
            proof {
                assert(ls[i as int] == lines@[i as int]@);
                assert(trimmed@ == t);
                reveal_strlit("source");
                reveal_strlit("}");
                assert("}"@ =~= seq!['}']);
                lemma_find_from(t, '=', 0);
            }
            if starts_with_str(trimmed.as_str(), "source") {
                match find_char(trimmed.as_str(), '=') {
                    Some(k) => {
                        let raw = rhs_value(trimmed.as_str(), k);
                        let expanded = expand_vars_exec(raw.as_str(), &vars);
                        let resolved = resolve_source_path(expanded.as_str(), home);
                        out.push(resolved);
                        proof {
                            let p = resolve_path(expand_vars(spec_rhs_value(t, find_from(t, '=',
                                0)), vm), home@);
                            assert(lines_view(out@) =~= out_pre.push(p));
                            assert(source_paths(ls, i as int, vm, home@) == seq![p]
                                + source_paths(ls, i + 1, vm, home@));
                            assert(out_pre.push(p) + source_paths(ls, i + 1, vm, home@)
                                =~= out_pre + (seq![p] + source_paths(ls, i + 1, vm, home@)));
                        }
                    },
                    None => {
                        proof {
                            assert(source_paths(ls, i as int, vm, home@)
                                =~= Seq::<Seq<char>>::empty() + source_paths(ls, i + 1, vm,
                                home@));
                            assert(Seq::<Seq<char>>::empty() + source_paths(ls, i + 1, vm, home@)
                                =~= source_paths(ls, i + 1, vm, home@));
                        }
                    },
                }
            } else if last_char_is(trimmed.as_str(), '{') {
                let stripped = strip_trailing_str(trimmed.as_str(), '{');
                let nm = trim_str(stripped.as_str());
                let pos = self.content.len();
                stack.push((nm, pos));
                proof {
                    assert(stack_m(stack@) =~= sm_pre.push((sec_name(ls[i as int]), base + i)));
                }
            } else {
                let is_close = str_eq(trimmed.as_str(), "}");
                if is_close && stack.len() > 0 {
                    let top = match stack.pop() {
                        Some(tp) => tp,
                        None => {
                            proof {
                                assert(false);
                            }
                            unreached()
                        },
                    };
                    let full = dotted_name(&stack, top.0.as_str());
                    let ghost fullm = join_with(stack_names(sm_pre), '.');
                    proof {
                        assert(stack_m(stack@) =~= sm_pre.drop_last());
                        assert(stack_names(stack_m(stack@)).push(top.0@) =~= stack_names(sm_pre));
                        assert(full@ == fullm);
                        assert(sm_pre.last() == (top.0@, top.1 as int));
                        lemma_set_section_frame(secs_pre, fullm, top.1 as int, base + i);
                    }
                    let pos = self.content.len();
                    sections_set(&mut self.sections, full, top.1, pos);
                    proof {
                        acc = acc_pre.push((fullm, top.1 as int, base + i));
                        lemma_set_all_push(m0.sections, acc_pre, (fullm, top.1 as int, base + i));
                    }
                }
            }
            let ghost cpre = self.content@;
            self.content.push(line_owned);
            proof {
                assert(line_owned@ == ls[i as int]);
                assert(self.content@.len() as int == base + i + 1);
                assert forall|j: int| 0 <= j < base + i + 1 implies lines_view(self.content@)[j]
                    == (m0.content + ls.subrange(0, i + 1))[j] by {
                    if j < base + i {
                        assert(self.content@[j] == cpre[j]);
                        assert(lines_view(self.content@)[j] == lines_view(cpre)[j]);
                        assert(lines_view(cpre)[j] == (m0.content + ls.subrange(0, i as int))[j]);
                        if j < base {
                            assert((m0.content + ls.subrange(0, i as int))[j] == m0.content[j]);
                            assert((m0.content + ls.subrange(0, i + 1))[j] == m0.content[j]);
                        } else {
                            assert((m0.content + ls.subrange(0, i as int))[j] == ls[j - base]);
                            assert((m0.content + ls.subrange(0, i + 1))[j] == ls[j - base]);
                        }
                    } else {
                        assert(self.content@[j] == line_owned);
                        assert((m0.content + ls.subrange(0, i + 1))[j] == ls[i as int]);
                    }
                }
                assert(lines_view(self.content@) =~= m0.content + ls.subrange(0, i + 1));
                if !(spec_starts_with(t, "source"@) && find_from(t, '=', 0) >= 0) {
                    assert(source_paths(ls, i as int, vm, home@) =~= Seq::<Seq<char>>::empty()
                        + source_paths(ls, i + 1, vm, home@));
                    assert(Seq::<Seq<char>>::empty() + source_paths(ls, i + 1, vm, home@)
                        =~= source_paths(ls, i + 1, vm, home@));
                }
                assert(scan(ls, i + 1, base, stack_m(stack@), acc, true) == scan(
                    ls,
                    i as int,
                    base,
                    sm_pre,
                    acc_pre,
                    true,
                ));
            }
            i = i + 1;
        }
        proof {
            assert(scan(ls, ls.len() as int, base, stack_m(stack@), acc, true) == acc);
            assert(ls.subrange(0, ls.len() as int) =~= ls);
            assert(source_paths(ls, ls.len() as int, vm, home@) =~= Seq::<Seq<char>>::empty());
            assert(lines_view(out@) + Seq::<Seq<char>>::empty() =~= lines_view(out@));
            assert(self.m() =~~= spec_parse_primary(m0, config_str@, home@));
        }
        out
    }

    /// A sourced parse: hold the text's lines as one new sourced buffer
    /// and record its sections, keyed by the new buffer's index.  Lines
    /// starting with `source` are kept verbatim but not expanded again: an
    /// included file cannot include further files.
    fn parse_sourced(&mut self, config_str: &str) -> (r: Vec<String>)
        requires
            wf_model(old(self).m()),
        ensures
            final(self).m() == spec_parse_sourced(old(self).m(), config_str@),
            r@.len() == 0,
            wf_model(final(self).m()),
    {
        let ghost m0 = self.m();
        let lines = split_lines(config_str);
        let ghost ls = lines_view(lines@);
        let idx = self.sourced_content.len();
        let mut buf: Vec<String> = Vec::new();
        let mut stack: Vec<(String, usize)> = Vec::new();
        let ghost mut acc: Seq<SecM> = Seq::empty();
        proof {
            assert(stack_m(stack@) =~= Seq::<(Seq<char>, int)>::empty());
            assert(lines_view(buf@) =~= ls.subrange(0, 0));
            assert(m0.sourced_sections == ssecs_m(self.sourced_sections@));
            assert forall|j: int| 0 <= j < ssecs_m(self.sourced_sections@).len() implies {
                let rr = #[trigger] ssecs_m(self.sourced_sections@)[j];
                0 <= rr.1 < idx as int && 0 <= rr.2 <= rr.3 < m0.sourced_content[rr.1].len()
            } by {
                assert(m0.sourced_sections[j] == ssecs_m(self.sourced_sections@)[j]);
            }
        }
        let mut i: usize = 0;
        while i < lines.len()
            invariant
                0 <= i <= lines@.len(),
                ls == lines_view(lines@),
                m0 == old(self).m(),
                wf_model(m0),
                idx as int == m0.sourced_content.len(),
                buf@.len() == i,
                lines_view(buf@) == ls.subrange(0, i as int),
                self.content == old(self).content,
                self.sections == old(self).sections,
                self.sourced_content == old(self).sourced_content,
                self.sourced_paths == old(self).sourced_paths,
                scan(ls, i as int, 0, stack_m(stack@), acc, false) == scan(
                    ls,
                    0,
                    0,
                    Seq::empty(),
                    Seq::empty(),
                    false,
                ),
                ssecs_m(self.sourced_sections@) == set_ssections_all(m0.sourced_sections,
                    idx as int, acc, 0),
                forall|j: int| 0 <= j < stack@.len() ==> 0 <= (#[trigger] stack_m(stack@)[j]).1
                    < i,
                forall|j: int| 0 <= j < ssecs_m(self.sourced_sections@).len() ==> {
                    let rr = #[trigger] ssecs_m(self.sourced_sections@)[j];
                    (0 <= rr.1 < idx as int && 0 <= rr.2 <= rr.3
                        < m0.sourced_content[rr.1].len()) || (rr.1 == idx as int && 0 <= rr.2
                        <= rr.3 < i)
                },
                forall|j: int, k: int| 0 <= j < k < ssecs_m(self.sourced_sections@).len() ==> !(
                ssecs_m(self.sourced_sections@)[j].0 == ssecs_m(self.sourced_sections@)[k].0
                    && ssecs_m(self.sourced_sections@)[j].1 == ssecs_m(
                    self.sourced_sections@,
                )[k].1),
            decreases lines@.len() - i,
        {
            let ghost sm_pre = stack_m(stack@);
            let ghost acc_pre = acc;
            let ghost ssecs_pre = ssecs_m(self.sourced_sections@);
            let line_owned = lines[i].clone();
            let trimmed = trim_str(line_owned.as_str());
            let ghost t = spec_trim(ls[i as int]);
            proof {
                assert(ls[i as int] == lines@[i as int]@);
                assert(trimmed@ == t);
                reveal_strlit("}");
                assert("}"@ =~= seq!['}']);
            }
            if last_char_is(trimmed.as_str(), '{') {
                let stripped = strip_trailing_str(trimmed.as_str(), '{');
                let nm = trim_str(stripped.as_str());
                let pos = buf.len();
                stack.push((nm, pos));
                proof {
                    assert(stack_m(stack@) =~= sm_pre.push((sec_name(ls[i as int]), 0 + i)));
                }
            } else {
                let is_close = str_eq(trimmed.as_str(), "}");
                if is_close && stack.len() > 0 {
                    let top = match stack.pop() {
                        Some(tp) => tp,
                        None => {
                            proof {
                                assert(false);
                            }
                            unreached()
                        },
                    };
                    let full = dotted_name(&stack, top.0.as_str());
                    let ghost fullm = join_with(stack_names(sm_pre), '.');
                    proof {
                        assert(stack_m(stack@) =~= sm_pre.drop_last());
                        assert(stack_names(stack_m(stack@)).push(top.0@) =~= stack_names(sm_pre));
                        assert(full@ == fullm);
                        assert(sm_pre.last() == (top.0@, top.1 as int));
                        lemma_set_ssection_frame(ssecs_pre, fullm, idx as int, top.1 as int,
                            i as int);
                    }
                    let pos = buf.len();
                    ssections_set(&mut self.sourced_sections, full, idx, top.1, pos);
                    proof {
                        acc = acc_pre.push((fullm, top.1 as int, i as int));
                        lemma_set_sall_push(m0.sourced_sections, idx as int, acc_pre, (fullm,
                            top.1 as int, i as int));
                    }
                }
            }
            let ghost bpre = buf@;
            buf.push(line_owned);
            proof {
                assert(line_owned@ == ls[i as int]);
                assert(buf@.len() == i + 1);
                assert forall|j: int| 0 <= j < i + 1 implies lines_view(buf@)[j]
                    == ls.subrange(0, i + 1)[j] by {
                    if j < i {
                        assert(buf@[j] == bpre[j]);
                        assert(lines_view(buf@)[j] == lines_view(bpre)[j]);
                        assert(lines_view(bpre)[j] == ls.subrange(0, i as int)[j]);
                    } else {
                        assert(buf@[j] == line_owned);
                    }
                }
                assert(lines_view(buf@) =~= ls.subrange(0, i + 1));
                assert(scan(ls, i + 1, 0, stack_m(stack@), acc, false) == scan(
                    ls,
                    i as int,
                    0,
                    sm_pre,
                    acc_pre,
                    false,
                ));
            }
            i = i + 1;
        }
        self.sourced_content.push(buf);
        proof {
            assert(scan(ls, ls.len() as int, 0, stack_m(stack@), acc, false) == acc);
            assert(ls.subrange(0, ls.len() as int) =~= ls);
            assert(lines_view(buf@) == ls);
            assert(Seq::new(self.sourced_content@.len(), |j: int| lines_view(
                self.sourced_content@[j]@,
            )) =~= m0.sourced_content.push(ls));
            assert(self.m() =~~= spec_parse_sourced(m0, config_str@));
        }
        Vec::new()
    }

    /// Parse a text into the document.  A primary parse (`sourced` false)
    /// fills the primary buffer and returns the resolved paths of the
    /// files the text asks to include, for the caller to read; a sourced
    /// parse (`sourced` true) holds the text as one new sourced buffer and
    /// returns nothing.  After a sourced parse the caller records the path
    /// the text was read from with [`HyprlandConfig::record_sourced_path`],
    /// or leaves it unrecorded for a synthetic buffer.
    pub fn parse(&mut self, config_str: &str, sourced: bool, home: &str) -> (r: Vec<String>)
        requires
            wf_model(old(self).m()),
        ensures
            !sourced ==> final(self).m() == spec_parse_primary(old(self).m(), config_str@, home@)
                && lines_view(r@) == spec_primary_paths(config_str@, home@),
            sourced ==> final(self).m() == spec_parse_sourced(old(self).m(), config_str@)
                && r@.len() == 0,
            wf_model(final(self).m()),
    {
        if sourced {
            self.parse_sourced(config_str)
        } else {
            self.parse_primary(config_str, home)
        }
    }
}

/// Folding one more record equals folding the rest and then setting it.
pub proof fn lemma_set_all_push(m: Seq<SecM>, recs: Seq<SecM>, rec: SecM)
    ensures
        set_sections_all(m, recs.push(rec), 0) == set_section(
            set_sections_all(m, recs, 0),
            rec.0,
            rec.1,
            rec.2,
        ),
{
    lemma_set_all_push_from(m, recs, rec, 0);
}

proof fn lemma_set_all_push_from(m: Seq<SecM>, recs: Seq<SecM>, rec: SecM, i: int)
    requires
        0 <= i <= recs.len(),
    ensures
        set_sections_all(m, recs.push(rec), i) == set_section(
            set_sections_all(m, recs, i),
            rec.0,
            rec.1,
            rec.2,
        ),
    decreases recs.len() - i,
{
    let recs2 = recs.push(rec);
    if i == recs.len() {
        assert(recs2[i] == rec);
        assert(set_sections_all(m, recs2, i) == set_sections_all(
            set_section(m, rec.0, rec.1, rec.2),
            recs2,
            i + 1,
        ));
    } else {
        assert(recs2[i] == recs[i]);
        lemma_set_all_push_from(set_section(m, recs[i].0, recs[i].1, recs[i].2), recs, rec, i + 1);
    }
}

/// Folding one more sourced record equals folding the rest and then
/// setting it.
pub proof fn lemma_set_sall_push(m: Seq<SSecM>, buf: int, recs: Seq<SecM>, rec: SecM)
    ensures
        set_ssections_all(m, buf, recs.push(rec), 0) == set_ssection(
            set_ssections_all(m, buf, recs, 0),
            rec.0,
            buf,
            rec.1,
            rec.2,
        ),
{
    lemma_set_sall_push_from(m, buf, recs, rec, 0);
}

proof fn lemma_set_sall_push_from(m: Seq<SSecM>, buf: int, recs: Seq<SecM>, rec: SecM, i: int)
    requires
        0 <= i <= recs.len(),
    ensures
        set_ssections_all(m, buf, recs.push(rec), i) == set_ssection(
            set_ssections_all(m, buf, recs, i),
            rec.0,
            buf,
            rec.1,
            rec.2,
        ),
    decreases recs.len() - i,
{
    let recs2 = recs.push(rec);
    if i == recs.len() {
        assert(recs2[i] == rec);
        assert(set_ssections_all(m, buf, recs2, i) == set_ssections_all(
            set_ssection(m, rec.0, buf, rec.1, rec.2),
            buf,
            recs2,
            i + 1,
        ));
    } else {
        assert(recs2[i] == recs[i]);
        lemma_set_sall_push_from(set_ssection(m, recs[i].0, buf, recs[i].1, recs[i].2), buf, recs,
            rec, i + 1);
    }
}

/// Round trip: a document parsed from any root text renders back to that
/// text exactly -- every original line, in order, blank lines and
/// comments included.
pub proof fn lemma_parse_render_round_trip(text: Seq<char>, home: Seq<char>)
    ensures
        join_with(
            spec_parse_primary(crate::model::empty_model(), text, home).content,
            '\n',
        ) == text,
{
    assert(crate::model::empty_model().content + spec_lines(text) =~= spec_lines(text));
    crate::text::lemma_lines_join_round_trip(text);
}

/// Parse a root text into a fresh document.  Include directives are
/// resolved but not read here: a caller that wants them honoured reads
/// each returned path itself and hands the text to a sourced parse.
pub fn parse_config(config_str: &str, home: &str) -> (r: HyprlandConfig)
    ensures
        r.m() == spec_parse_primary(crate::model::empty_model(), config_str@, home@),
        wf_model(r.m()),
{
    let mut config = HyprlandConfig::new();
    let _paths = config.parse(config_str, false, home);
    config
}

} // verus!
