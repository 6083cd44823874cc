//! The document model: a primary line buffer with its section index, plus
//! the line buffers of included ("sourced") files, each with its own
//! section entries and an optional backing path.  Contracts are stated
//! over [`ConfigModel`], a mathematical view of the whole aggregate.

use vstd::prelude::*;
use vstd::string::*;

use crate::text::{first_non_space, join_with, join_with_from, lines_view, space_char,
    spec_trim, str_eq, trim_str};

verus! {

/// One entry of the primary section index: a fully-qualified dotted
/// section name and the inclusive line range of its block.  `start` is the
/// line holding `name {`, `end` the line holding the matching `}`.
#[derive(Debug)]
pub struct Section {
    pub name: String,
    pub start: usize,
    pub end: usize,
}

/// One entry of the sourced section index.  `buffer` says which sourced
/// line buffer the range indexes into; two included files may both define
/// a section of the same name.
#[derive(Debug)]
pub struct SourcedSection {
    pub name: String,
    pub buffer: usize,
    pub start: usize,
    pub end: usize,
}

/// Text that should be persisted to an included file's backing path after
/// an edit.  Writing is the caller's task; the library never touches the
/// filesystem.
#[derive(Debug)]
pub struct WriteRequest {
    pub path: String,
    pub content: String,
}

/// The parsed document: the primary line buffer and its section index,
/// the sourced line buffers with their section entries, and each sourced
/// buffer's backing path (empty for synthetic buffers never written back).
#[derive(Debug)]
pub struct HyprlandConfig {
    pub content: Vec<String>,
    pub sections: Vec<Section>,
    pub sourced_content: Vec<Vec<String>>,
    pub sourced_sections: Vec<SourcedSection>,
    pub sourced_paths: Vec<String>,
}

/// A primary section entry as a mathematical value: name, start, end.
pub type SecM = (Seq<char>, int, int);

/// A sourced section entry as a mathematical value: name, buffer, start, end.
pub type SSecM = (Seq<char>, int, int, int);

/// The whole document as a mathematical value.
#[verifier::ext_equal]
pub struct ConfigModel {
    pub content: Seq<Seq<char>>,
    pub sections: Seq<SecM>,
    pub sourced_content: Seq<Seq<Seq<char>>>,
    pub sourced_sections: Seq<SSecM>,
    pub sourced_paths: Seq<Seq<char>>,
}

pub open spec fn sec_m(s: Section) -> SecM {
    (s.name@, s.start as int, s.end as int)
}

pub open spec fn secs_m(v: Seq<Section>) -> Seq<SecM> {
    Seq::new(v.len(), |i: int| sec_m(v[i]))
}

pub open spec fn ssec_m(s: SourcedSection) -> SSecM {
    (s.name@, s.buffer as int, s.start as int, s.end as int)
}

pub open spec fn ssecs_m(v: Seq<SourcedSection>) -> Seq<SSecM> {
    Seq::new(v.len(), |i: int| ssec_m(v[i]))
}

/// Every section range lies inside its buffer, names are unique per index
/// (per buffer, for sourced entries), and no sourced buffer lacks more
/// than a not-yet-recorded backing path.
pub open spec fn wf_model(m: ConfigModel) -> bool {
    &&& (forall|i: int| 0 <= i < m.sections.len() ==> {
        let r = #[trigger] m.sections[i];
        0 <= r.1 <= r.2 < m.content.len()
    })
    &&& (forall|i: int, j: int| 0 <= i < j < m.sections.len() ==> m.sections[i].0
        != m.sections[j].0)
    &&& m.sourced_paths.len() <= m.sourced_content.len()
    &&& (forall|i: int| 0 <= i < m.sourced_sections.len() ==> {
        let r = #[trigger] m.sourced_sections[i];
        0 <= r.1 < m.sourced_content.len() && 0 <= r.2 <= r.3 < m.sourced_content[r.1].len()
    })
    &&& (forall|i: int, j: int| 0 <= i < j < m.sourced_sections.len() ==> !(
    m.sourced_sections[i].0 == m.sourced_sections[j].0 && m.sourced_sections[i].1
        == m.sourced_sections[j].1))
}

/// Adding a flat `key = value` line: an empty key and value append one
/// blank line; otherwise the line is appended unless an existing line
/// already holds the same trimmed text.
pub open spec fn spec_add_headless(m: ConfigModel, key: Seq<char>, value: Seq<char>) -> ConfigModel {
    if key.len() == 0 && value.len() == 0 {
        ConfigModel { content: m.content.push(Seq::empty()), ..m }
    } else {
        let entry = key + seq![' ', '=', ' '] + value;
        if exists|i: int| 0 <= i < m.content.len() && spec_trim(#[trigger] m.content[i])
            == spec_trim(entry) {
            m
        } else {
            ConfigModel { content: m.content.push(entry), ..m }
        }
    }
}

/// The first line's leading-space count, over lines that have one; four
/// where no line is indented.
pub open spec fn spec_detect(lines: Seq<Seq<char>>, i: int) -> int
    decreases lines.len() - i,
{
    if i < 0 || i >= lines.len() {
        4
    } else if first_non_space(lines[i], 0) > 0 {
        first_non_space(lines[i], 0)
    } else {
        spec_detect(lines, i + 1)
    }
}

/// The model of a document with nothing in it.
pub open spec fn empty_model() -> ConfigModel {
    ConfigModel {
        content: Seq::empty(),
        sections: Seq::empty(),
        sourced_content: Seq::empty(),
        sourced_sections: Seq::empty(),
        sourced_paths: Seq::empty(),
    }
}

impl HyprlandConfig {
    /// The document as a mathematical value.
    pub open spec fn m(self) -> ConfigModel {
        ConfigModel {
            content: lines_view(self.content@),
            sections: secs_m(self.sections@),
            sourced_content: Seq::new(
                self.sourced_content@.len(),
                |i: int| lines_view(self.sourced_content@[i]@),
            ),
            sourced_sections: ssecs_m(self.sourced_sections@),
            sourced_paths: lines_view(self.sourced_paths@),
        }
    }

    /// An empty document.
    pub fn new() -> (r: Self)
        ensures
            r.m() == empty_model(),
            wf_model(r.m()),
    {
        let r = HyprlandConfig {
            content: Vec::new(),
            sections: Vec::new(),
            sourced_content: Vec::new(),
            sourced_sections: Vec::new(),
            sourced_paths: Vec::new(),
        };
        proof {
            assert(r.m() =~~= empty_model());
        }
        r
    }

    /// The primary buffer rendered back to text: the lines joined by
    /// newlines, with no newline after the final line.
    pub fn render(&self) -> (r: String)
        ensures
            r@ == join_with(self.m().content, '\n'),
    {
        let r = join_with_from(&self.content, 0, '\n');
        proof {
            assert(lines_view(self.content@).subrange(0, self.content@.len() as int)
                =~= self.m().content);
        }
        r
    }

    /// Append a flat `key = value` line to the primary buffer, with no
    /// section context.  An empty key and value append one blank line
    /// (blank lines are never suppressed); otherwise the line is appended
    /// only if no line with the same trimmed text is already present.
    pub fn add_entry_headless(&mut self, key: &str, value: &str)
        ensures
            final(self).m() == spec_add_headless(old(self).m(), key@, value@),
            old(self).m().sections == final(self).m().sections,
            wf_model(old(self).m()) ==> wf_model(final(self).m()),
    {
        let ghost m0 = self.m();
        if key.unicode_len() == 0 && value.unicode_len() == 0 {
            self.content.push(String::new());
            proof {
                assert(self.m() =~~= ConfigModel {
                    content: m0.content.push(Seq::empty()),
                    ..m0
                });
            }
        } else {
            proof {
                reveal_strlit(" = ");
            }
            let mut entry = key.to_owned();
            entry.append(" = ");
            entry.append(value);
            let ghost e = key@ + seq![' ', '=', ' '] + value@;
            proof {
                assert(entry@ =~= e);
            }
            let trimmed = trim_str(entry.as_str());
            let mut found = false;
            let mut i: usize = 0;
            while i < self.content.len()
                invariant
                    0 <= i <= self.content@.len(),
                    trimmed@ == spec_trim(e),
                    found == exists|j: int| 0 <= j < i && spec_trim(
                        #[trigger] lines_view(self.content@)[j],
                    ) == spec_trim(e),
                decreases self.content@.len() - i,
            {
                let lt = trim_str(self.content[i].as_str());
                let matches_here = str_eq(lt.as_str(), trimmed.as_str());
                proof {
                    assert(lines_view(self.content@)[i as int] == self.content@[i as int]@);
                }
                if matches_here {
                    found = true;
                    assert(spec_trim(lines_view(self.content@)[i as int]) == spec_trim(e));
                }
                i = i + 1;
            }
            if !found {
                self.content.push(entry);
                proof {
                    assert(self.m() =~~= ConfigModel { content: m0.content.push(e), ..m0 });
                }
            } else {
                proof {
                    assert(self.m() =~~= m0);
                }
            }
        }
    }

    /// Append a synthetic sourced buffer with no backing path; it is part
    /// of the model but is never persisted.
    pub fn add_sourced(&mut self, config: Vec<String>)
        ensures
            final(self).m() == (ConfigModel {
                sourced_content: old(self).m().sourced_content.push(lines_view(config@)),
                sourced_paths: old(self).m().sourced_paths.push(Seq::empty()),
                ..old(self).m()
            }),
            wf_model(old(self).m()) ==> wf_model(final(self).m()),
    {
        let ghost m0 = self.m();
        self.sourced_content.push(config);
        self.sourced_paths.push(String::new());
        proof {
            assert(self.m() =~~= ConfigModel {
                sourced_content: m0.sourced_content.push(lines_view(config@)),
                sourced_paths: m0.sourced_paths.push(Seq::empty()),
                ..m0
            });
        }
    }

    /// Record the backing path of the most recently parsed sourced buffer.
    /// Parsing a sourced text and recording where it came from are two
    /// steps, so that a buffer read by the caller can be registered with
    /// the path it was read from.
    pub fn record_sourced_path(&mut self, path: &str)
        requires
            old(self).m().sourced_paths.len() < old(self).m().sourced_content.len(),
        ensures
            final(self).m() == (ConfigModel {
                sourced_paths: old(self).m().sourced_paths.push(path@),
                ..old(self).m()
            }),
            wf_model(old(self).m()) ==> wf_model(final(self).m()),
    {
        let ghost m0 = self.m();
        self.sourced_paths.push(path.to_owned());
        proof {
            assert(self.m() =~~= ConfigModel {
                sourced_paths: m0.sourced_paths.push(path@),
                ..m0
            });
        }
    }

    /// The indentation width used by a buffer: the leading-space count of
    /// the first indented line, or four if no line is indented.
    pub fn detect_indentation(&self, content: &Vec<String>) -> (r: usize)
        ensures
            r as int == spec_detect(lines_view(content@), 0),
    {
        let mut i: usize = 0;
        while i < content.len()
            invariant
                0 <= i <= content@.len(),
                spec_detect(lines_view(content@), 0) == spec_detect(lines_view(content@), i as int),
            decreases content@.len() - i,
        {
            let line = &content[i];
            let n = line.as_str().unicode_len();
            let mut w: usize = 0;
            while w < n && space_char(line.as_str().get_char(w))
                invariant
                    0 <= w <= n,
                    n == line@.len(),
                    first_non_space(line@, 0) == first_non_space(line@, w as int),
                decreases n - w,
            {
                w = w + 1;
            }
            assert(first_non_space(line@, w as int) == w as int);
            assert(lines_view(content@)[i as int] == line@);
            if w > 0 {
                return w;
            }
            i = i + 1;
        }
        4
    }
}

/// The primary buffers hold the same lines.
pub fn content_eq(a: &Vec<String>, b: &Vec<String>) -> (r: bool)
    ensures
        r == (lines_view(a@) == lines_view(b@)),
{
    if a.len() != b.len() {
        assert(lines_view(a@).len() != lines_view(b@).len());
        return false;
    }
    let mut i: usize = 0;
    while i < a.len()
        invariant
            0 <= i <= a@.len(),
            a@.len() == b@.len(),
            forall|j: int| 0 <= j < i ==> #[trigger] lines_view(a@)[j] == lines_view(b@)[j],
        decreases a@.len() - i,
    {
        if !str_eq(a[i].as_str(), b[i].as_str()) {
            assert(lines_view(a@)[i as int] != lines_view(b@)[i as int]);
            return false;
        }
        i = i + 1;
    }
    proof {
        assert(lines_view(a@) =~= lines_view(b@));
    }
    true
}

impl PartialEq for HyprlandConfig {
    /// Documents are equal when their primary buffers hold the same text;
    /// sourced buffers are an edit side effect and not part of equality.
    fn eq(&self, other: &Self) -> (r: bool) {
        content_eq(&self.content, &other.content)
    }
}

impl vstd::std_specs::cmp::PartialEqSpecImpl for HyprlandConfig {
    open spec fn obeys_eq_spec() -> bool {
        true
    }

    open spec fn eq_spec(&self, other: &Self) -> bool {
        lines_view(self.content@) == lines_view(other.content@)
    }
}

} // verus!
