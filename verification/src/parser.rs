//! Reads a tree drawing: each line into an entry, the entries into a
//! hierarchy.

use crate::levels::{
    first_orphan, latest_at, lemma_same_prefix, lemma_stack_filled, lemma_tree_of_push,
    max_depth, orphan_at, orphan_free, root_count, stack_len, tree_of,
};
use crate::models::file_item::{
    empty_filename, forbidden_listing, name_of, valid_filename, FileItem, FileItemError,
    FileItemView,
};
use crate::models::node::{lemma_levels_consistent, levels_consistent, Node, Tree};
use crate::text::{
    all_in, any_in, count_leading, from_chars, leading, lemma_leading, lemma_trimmed_len, lines_of,
    split_lines, texts, to_chars, trim, trim_end, trimmed_end, CharClass,
};
use vstd::prelude::*;

verus! {

/// What stands before the first `#` of the line, without the whitespace at
/// its end: the indentation and the name.
pub open spec fn structural_part(line: Seq<char>) -> Seq<char> {
    let t = trim_end(line);
    trim_end(t.take(leading(t, CharClass::Except('#')) as int))
}

/// What stands behind the first `#` of the line, trimmed; empty where the
/// line has no `#`.
pub open spec fn comment_part(line: Seq<char>) -> Seq<char> {
    let t = trim_end(line);
    let hash = leading(t, CharClass::Except('#'));
    if hash < t.len() {
        trim(t.skip(hash as int + 1))
    } else {
        Seq::empty()
    }
}

/// The number of connector glyphs and spaces the line is indented by.
pub open spec fn indent_of(line: Seq<char>) -> nat {
    leading(structural_part(line), CharClass::Connector)
}

/// What is left of the structural part behind its indentation.
pub open spec fn candidate_name(line: Seq<char>) -> Seq<char> {
    structural_part(line).skip(indent_of(line) as int)
}

/// The entry that a line stands for, if any: a line yields none when it is
/// blank, when nothing follows its indentation, or when its name is refused.
pub open spec fn parse_line_spec(line: Seq<char>, width: nat, line_number: nat) -> Option<
    FileItemView,
> {
    if candidate_name(line).len() == 0 || !valid_filename(candidate_name(line)) {
        None
    } else {
        Some(
            FileItemView {
                filename: candidate_name(line),
                level: indent_of(line) / width,
                comment: comment_part(line),
                line_number,
            },
        )
    }
}

/// Something about the input that is worth a warning and stops nothing.
#[derive(Debug, Clone, Copy, PartialEq, Eq)]
pub enum Diagnostic {
    /// Nothing follows the indentation of the line.
    InvalidLineFormat { line: usize },
    /// The indentation is no multiple of the indent width; the depth was
    /// rounded down.
    InconsistentIndentation { line: usize, expected_multiple: usize, found: usize },
    /// The name on the line was refused, as empty or for a forbidden
    /// character; the line was skipped.
    InvalidFilename { line: usize, empty: bool },
    /// A further entry at depth 0, behind the root.
    MultipleRoots { line: usize },
}

impl Diagnostic {
    /// The error that refused the name, for a warning about a refused name.
    pub fn filename_error(&self) -> (r: Option<FileItemError>)
        ensures
            match r {
                Some(FileItemError::EmptyFilename) => *self matches Diagnostic::InvalidFilename {
                    empty,
                    ..
                } && empty,
                Some(FileItemError::InvalidCharacters(listing)) => *self
                    matches Diagnostic::InvalidFilename { empty, .. } && !empty && listing@
                    == forbidden_listing(),
                None => !(*self is InvalidFilename),
            },
    {
        match self {
            Diagnostic::InvalidFilename { empty, .. } => {
                if *empty {
                    Some(FileItemError::EmptyFilename)
                } else {
                    Some(FileItemError::invalid_characters())
                }
            },
            _ => None,
        }
    }
}

/// The warnings that reading one line gives rise to.
pub open spec fn line_diagnostics(line: Seq<char>, width: nat, line_number: usize) -> Seq<
    Diagnostic,
> {
    if all_in(line, CharClass::Whitespace) {
        Seq::empty()
    } else if candidate_name(line).len() == 0 {
        seq![Diagnostic::InvalidLineFormat { line: line_number }]
    } else {
        let indentation = if indent_of(line) % width != 0 {
            seq![
                Diagnostic::InconsistentIndentation {
                    line: line_number,
                    expected_multiple: width as usize,
                    found: indent_of(line) as usize,
                },
            ]
        } else {
            Seq::empty()
        };
        if valid_filename(candidate_name(line)) {
            indentation
        } else {
            indentation.push(
                Diagnostic::InvalidFilename {
                    line: line_number,
                    empty: empty_filename(candidate_name(line)),
                },
            )
        }
    }
}

/// What is read as a name starts with a character that is no connector and
/// ends with one that is no whitespace. So it is never blank: where it is
/// refused, it is nothing but directory markers or holds a forbidden
/// character.
pub proof fn lemma_candidate_name(line: Seq<char>)
    requires
        candidate_name(line).len() > 0,
    ensures
        !CharClass::Connector.has(candidate_name(line)[0]),
        !CharClass::Whitespace.has(candidate_name(line).last()),
        !all_in(candidate_name(line), CharClass::Whitespace),
        !valid_filename(candidate_name(line)) ==> name_of(candidate_name(line)).len() == 0
            || any_in(candidate_name(line), CharClass::Forbidden),
{
    let t = trim_end(line);
    let before_hash = t.take(leading(t, CharClass::Except('#')) as int);
    let part = structural_part(line);
    let name = candidate_name(line);
    lemma_trimmed_len(before_hash, CharClass::Whitespace);
    lemma_leading(part, CharClass::Connector);
    assert(name[0] == part[indent_of(line) as int]);
    assert(name.last() == part.last());
    assert(part.last() == before_hash[part.len() - 1]);
}

/// A blank line has no candidate name.
pub proof fn lemma_blank_line(line: Seq<char>)
    requires
        all_in(line, CharClass::Whitespace),
    ensures
        candidate_name(line).len() == 0,
{
    lemma_trimmed_len(line, CharClass::Whitespace);
    assert(trim_end(line).len() == 0);
}

/// The entries that the lines stand for, in order. Lines are numbered from
/// 1.
pub open spec fn entries_of(lines: Seq<Seq<char>>, width: nat) -> Seq<FileItemView>
    decreases lines.len(),
{
    if lines.len() == 0 {
        Seq::empty()
    } else {
        let before = entries_of(lines.drop_last(), width);
        match parse_line_spec(lines.last(), width, lines.len()) {
            Some(entry) => before.push(entry),
            None => before,
        }
    }
}

/// Whether the last of `lines` holds an entry at depth 0 that comes behind
/// another one.
pub open spec fn repeats_root(lines: Seq<Seq<char>>, width: nat) -> bool {
    let before = entries_of(lines.drop_last(), width);
    match parse_line_spec(lines.last(), width, lines.len()) {
        Some(entry) => entry.level == 0 && root_count(before, before.len() as int) > 0,
        None => false,
    }
}

/// The warnings that reading the lines gives rise to, in order.
pub open spec fn diagnostics_of(lines: Seq<Seq<char>>, width: nat) -> Seq<Diagnostic>
    decreases lines.len(),
{
    if lines.len() == 0 {
        Seq::empty()
    } else {
        let so_far = diagnostics_of(lines.drop_last(), width) + line_diagnostics(
            lines.last(),
            width,
            lines.len() as usize,
        );
        if repeats_root(lines, width) {
            so_far.push(Diagnostic::MultipleRoots { line: lines.len() as usize })
        } else {
            so_far
        }
    }
}

/// The entries of the first `k` lines are the first entries of all lines.
pub proof fn lemma_entries_prefix(lines: Seq<Seq<char>>, width: nat, k: int)
    requires
        0 <= k <= lines.len(),
    ensures
        entries_of(lines.take(k), width).len() <= entries_of(lines, width).len(),
        entries_of(lines.take(k), width) == entries_of(lines, width).take(
            entries_of(lines.take(k), width).len() as int,
        ),
    decreases lines.len(),
{
    let part = entries_of(lines.take(k), width);
    if k == lines.len() {
        assert(lines.take(k) =~= lines);
        assert(part =~= part.take(part.len() as int));
    } else {
        let before = lines.drop_last();
        assert(before.take(k) =~= lines.take(k));
        lemma_entries_prefix(before, width, k);
        assert(entries_of(before, width).take(part.len() as int) =~= entries_of(lines, width).take(
            part.len() as int,
        ));
    }
}

/// Why a drawing could not be read.
#[derive(Debug, Clone, Copy, PartialEq, Eq)]
pub enum TreeParseError {
    /// The text has no lines.
    EmptyFile,
    /// No line holds an entry.
    NoNodesFound,
    /// The entry on line `line` lies at depth `level`, more than one level
    /// below what it would have to hang below; `max_level` is the greatest
    /// depth among the entries before it, 0 where there is none.
    OrphanNode { line: usize, level: usize, max_level: usize },
}

/// Reads tree drawings whose depth grows by a fixed number of characters
/// of indentation.
pub struct TreeParser {
    symbol_length: usize,
}

impl TreeParser {
    #[verifier::type_invariant]
    spec fn positive_width(self) -> bool {
        self.symbol_length > 0
    }

    /// The number of indentation characters that make one level of depth.
    pub closed spec fn indent_width(&self) -> nat {
        self.symbol_length as nat
    }

    /// A parser for drawings that indent by `symbol_length` characters per
    /// level.
    pub fn new(symbol_length: usize) -> (parser: Self)
        requires
            symbol_length > 0,
        ensures
            parser.indent_width() == symbol_length,
    {
        Self { symbol_length }
    }

    /// Reads one line. Warnings are dropped.
    pub fn parse_line(&self, line: &str, line_num: usize) -> (r: Option<FileItem>)
        ensures
            match r {
                Some(item) => parse_line_spec(line@, self.indent_width(), line_num as nat) == Some(
                    item@,
                ) && item.wf(),
                None => parse_line_spec(line@, self.indent_width(), line_num as nat) is None,
            },
    {
        let mut diagnostics: Vec<Diagnostic> = Vec::new();
        self.parse_line_reporting(line, line_num, &mut diagnostics)
    }

    /// Reads one line, and appends the warnings it gives rise to to
    /// `diagnostics`.
    pub fn parse_line_reporting(
        &self,
        line: &str,
        line_num: usize,
        diagnostics: &mut Vec<Diagnostic>,
    ) -> (r: Option<FileItem>)
        ensures
            match r {
                Some(item) => parse_line_spec(line@, self.indent_width(), line_num as nat) == Some(
                    item@,
                ) && item.wf(),
                None => parse_line_spec(line@, self.indent_width(), line_num as nat) is None,
            },
            final(diagnostics)@ == old(diagnostics)@ + line_diagnostics(
                line@,
                self.indent_width(),
                line_num,
            ),
    {
        proof {
            use_type_invariant(self);
        }
        let chars = to_chars(line);
        let n: usize = chars.len();
        assert(chars@.subrange(0, n as int) =~= line@);
        let end = trimmed_end(&chars, 0, n, CharClass::Whitespace);
        let ghost t = trim_end(line@);
        assert(t =~= chars@.subrange(0, end as int));
        proof {
            lemma_trimmed_len(line@, CharClass::Whitespace);
        }
        if end == 0 {
            proof {
                lemma_blank_line(line@);
                assert(diagnostics@ =~= old(diagnostics)@ + Seq::<Diagnostic>::empty());
            }
            return None;
        }
        let hash = count_leading(&chars, 0, end, CharClass::Except('#'));
        assert(t.take(hash as int) =~= chars@.subrange(0, hash as int));
        let part_end = trimmed_end(&chars, 0, hash, CharClass::Whitespace);
        let ghost part = structural_part(line@);
        assert(part =~= chars@.subrange(0, part_end as int));
        let mut comment_from: usize = 0;
        let mut comment_to: usize = 0;
        if hash < end {
            let ghost behind = t.skip(hash as int + 1);
            assert(behind =~= chars@.subrange(hash + 1, end as int));
            comment_from = hash + 1 + count_leading(&chars, hash + 1, end, CharClass::Whitespace);
            assert(behind.skip(comment_from - hash - 1) =~= chars@.subrange(
                comment_from as int,
                end as int,
            ));
            comment_to = trimmed_end(&chars, comment_from, end, CharClass::Whitespace);
            assert(comment_part(line@) =~= chars@.subrange(comment_from as int, comment_to as int));
        } else {
            assert(comment_part(line@) =~= chars@.subrange(comment_from as int, comment_to as int));
        }
        let indent = count_leading(&chars, 0, part_end, CharClass::Connector);
        assert(candidate_name(line@) =~= chars@.subrange(indent as int, part_end as int));
        if indent == part_end {
            diagnostics.push(Diagnostic::InvalidLineFormat { line: line_num });
            assert(diagnostics@ =~= old(diagnostics)@ + line_diagnostics(
                line@,
                self.indent_width(),
                line_num,
            ));
            return None;
        }
        if indent % self.symbol_length != 0 {
            diagnostics.push(
                Diagnostic::InconsistentIndentation {
                    line: line_num,
                    expected_multiple: self.symbol_length,
                    found: indent,
                },
            );
        }
        let level: usize = indent / self.symbol_length;
        let filename = from_chars(&chars, indent, part_end);
        let comment = from_chars(&chars, comment_from, comment_to);
        match FileItem::new(filename, level, comment, line_num) {
            Ok(item) => {
                assert(diagnostics@ =~= old(diagnostics)@ + line_diagnostics(
                    line@,
                    self.indent_width(),
                    line_num,
                ));
                Some(item)
            },
            Err(e) => {
                let empty: bool = match e {
                    FileItemError::EmptyFilename => true,
                    FileItemError::InvalidCharacters(_) => false,
                };
                diagnostics.push(Diagnostic::InvalidFilename { line: line_num, empty });
                assert(diagnostics@ =~= old(diagnostics)@ + line_diagnostics(
                    line@,
                    self.indent_width(),
                    line_num,
                ));
                None
            },
        }
    }

    /// Reads a drawing. Warnings are dropped.
    pub fn build_tree(&self, text: &str) -> (r: Result<(Tree, Option<String>), TreeParseError>)
        ensures
            reads_as(lines_of(text@), self.indent_width(), r),
    {
        let mut diagnostics: Vec<Diagnostic> = Vec::new();
        self.build_tree_reporting(text, &mut diagnostics)
    }

    /// Reads a drawing, and appends the warnings it gives rise to to
    /// `diagnostics`. The result holds the hierarchy, whose first node is
    /// the root, and the name of the top-level entry where the drawing has
    /// exactly one. Reading stops at the first orphan.
    pub fn build_tree_reporting(&self, text: &str, diagnostics: &mut Vec<Diagnostic>) -> (r: Result<
        (Tree, Option<String>),
        TreeParseError,
    >)
        ensures
            reads_as(lines_of(text@), self.indent_width(), r),
            final(diagnostics)@ == old(diagnostics)@ + diagnostics_of(
                lines_read(lines_of(text@), r),
                self.indent_width(),
            ),
    {
        proof {
            use_type_invariant(self);
        }
        let lines = split_lines(text);
        let ghost all = texts(lines@);
        let ghost width = self.indent_width();
        if lines.len() == 0 {
            assert(diagnostics@ =~= old(diagnostics)@ + Seq::<Diagnostic>::empty());
            return Err(TreeParseError::EmptyFile);
        }
        let mut tree = Tree::new();
        let mut level_stack: Vec<usize> = Vec::new();
        let mut root_name_to_skip: Option<String> = None;
        let mut deepest: usize = 0;
        let ghost mut es: Seq<FileItemView> = Seq::empty();
        let mut i: usize = 0;
        proof {
            assert(all.take(0) =~= Seq::<Seq<char>>::empty());
            assert(tree@ =~= tree_of(es));
            assert(diagnostics@ =~= old(diagnostics)@ + Seq::<Diagnostic>::empty());
        }
        while i < lines.len()
            invariant
                i <= lines@.len(),
                all == texts(lines@),
                all == lines_of(text@),
                width == self.indent_width(),
                width > 0,
                es == entries_of(all.take(i as int), width),
                es.len() <= i,
                orphan_free(es, es.len() as int),
                tree.wf(),
                tree@ == tree_of(es),
                level_stack@.len() == stack_len(es, es.len() as int),
                deepest == max_depth(es, es.len() as int),
                forall|d: int|
                    0 <= d < level_stack@.len() ==> level_stack@[d] == #[trigger] latest_at(
                        es,
                        es.len() as int,
                        d,
                    ),
                match root_name_to_skip {
                    Some(name) => root_count(es, es.len() as int) == 1 && name@ == name_of(
                        es[0].filename,
                    ),
                    None => root_count(es, es.len() as int) != 1,
                },
                diagnostics@ == old(diagnostics)@ + diagnostics_of(all.take(i as int), width),
            decreases lines@.len() - i,
        {
            let line_num: usize = i + 1;
            let ghost seen = all.take(i as int);
            let ghost now = all.take(i + 1);
            let ghost n = es.len() as int;
            proof {
                assert(now.drop_last() =~= seen);
                assert(now.last() == lines@[i as int]@);
            }
            let parsed = self.parse_line_reporting(lines[i].as_str(), line_num, diagnostics);
            if let Some(file_item) = parsed {
                let level: usize = file_item.level;
                let ghost entry = file_item@;
                let ghost more = es.push(entry);
                proof {
                    assert(more == entries_of(now, width));
                    lemma_same_prefix(more, es, n);
                    assert(stack_len(more, n) == stack_len(es, n));
                }
                if level > level_stack.len() {
                    proof {
                        let whole = entries_of(all, width);
                        lemma_entries_prefix(all, width, i + 1);
                        assert(whole[n] == more[n]);
                        lemma_same_prefix(whole, more, n + 1);
                        lemma_same_prefix(whole, more, n);
                        assert(orphan_at(more, n));
                        assert(orphan_free(more, n)) by {
                            assert forall|j: int| 0 <= j < n implies !#[trigger] orphan_at(
                                more,
                                j,
                            ) by {
                                assert(!orphan_at(es, j));
                            }
                        }
                        assert(orphan_free(whole, n)) by {
                            assert forall|j: int| 0 <= j < n implies !#[trigger] orphan_at(
                                whole,
                                j,
                            ) by {
                                assert(!orphan_at(more, j));
                            }
                        }
                        assert(first_orphan(whole, n));
                        assert(!repeats_root(now, width));
                        assert(diagnostics@ == old(diagnostics)@ + diagnostics_of(now, width)) by {
                            assert(old(diagnostics)@ + diagnostics_of(seen, width)
                                + line_diagnostics(now.last(), width, line_num) =~= old(diagnostics)@ + diagnostics_of(now, width));
                        }
                    }
                    return Err(
                        TreeParseError::OrphanNode { line: line_num, level, max_level: deepest },
                    );
                }
                proof {
                    assert(orphan_free(more, n + 1)) by {
                        assert forall|j: int| 0 <= j < n + 1 implies !#[trigger] orphan_at(
                            more,
                            j,
                        ) by {
                            if j < n {
                                assert(!orphan_at(es, j));
                            }
                        }
                    }
                    lemma_tree_of_push(es, entry);
                    lemma_stack_filled(es, n);
                    assert forall|d: int| latest_at(more, n, d) == #[trigger] latest_at(
                        es,
                        n,
                        d,
                    ) by {}
                    assert(root_count(more, n) == root_count(es, n));
                }
                if level > deepest {
                    deepest = level;
                }
                let first: bool = tree.len() == 0;
                let ghost stack_before = level_stack@;
                let index = tree.insert(Node::new(file_item));
                if level == 0 {
                    if first {
                        level_stack.push(index);
                        root_name_to_skip = Some(tree.node(index).data.name().to_owned());
                    } else {
                        diagnostics.push(Diagnostic::MultipleRoots { line: line_num });
                        level_stack[0] = index;
                        root_name_to_skip = None;
                    }
                } else {
                    level_stack.truncate(level);
                    let parent: usize = level_stack[level - 1];
                    Node::add_child(&mut tree, parent, index);
                    level_stack.push(index);
                }
                proof {
                    assert forall|d: int| 0 <= d < level_stack@.len() implies level_stack@[d]
                        == #[trigger] latest_at(more, n + 1, d) by {
                        assert(latest_at(more, n, d) == latest_at(es, n, d));
                        if d < stack_before.len() {
                            assert(stack_before[d] == latest_at(es, n, d));
                        }
                    }
                    assert(tree@ == tree_of(more));
                    assert(more[0] == if n == 0 {
                        entry
                    } else {
                        es[0]
                    });
                    assert(diagnostics@ =~= old(diagnostics)@ + diagnostics_of(now, width));
                    es = more;
                }
            } else {
                proof {
                    assert(es == entries_of(now, width));
                    assert(!repeats_root(now, width));
                    assert(diagnostics@ =~= old(diagnostics)@ + diagnostics_of(now, width));
                }
            }
            i += 1;
        }
        proof {
            assert(all.take(i as int) =~= all);
            lemma_levels_consistent(tree@);
            lemma_stack_filled(es, es.len() as int);
        }
        if tree.len() == 0 {
            Err(TreeParseError::NoNodesFound)
        } else {
            Ok((tree, root_name_to_skip))
        }
    }
}

/// What reading `lines` comes to. The text must have a line; no entry may
/// be an orphan, and the first one decides the error; there must be an
/// entry. Then the hierarchy is the one the entries stand for, its root is
/// the first entry, which lies at depth 0, and the name of the root is
/// handed out where no other entry lies at depth 0.
pub open spec fn reads_as(
    lines: Seq<Seq<char>>,
    width: nat,
    r: Result<(Tree, Option<String>), TreeParseError>,
) -> bool {
    let es = entries_of(lines, width);
    match r {
        Err(TreeParseError::EmptyFile) => lines.len() == 0,
        Err(TreeParseError::OrphanNode { line, level, max_level }) => lines.len() > 0 && exists|
            i: int,
        |
            #[trigger] first_orphan(es, i) && es[i].line_number == line && es[i].level == level
                && max_level == max_depth(es, i),
        Err(TreeParseError::NoNodesFound) => lines.len() > 0 && es.len() == 0,
        Ok((tree, top)) => {
            &&& lines.len() > 0
            &&& es.len() > 0
            &&& orphan_free(es, es.len() as int)
            &&& tree.wf()
            &&& levels_consistent(tree@)
            &&& tree@ == tree_of(es)
            &&& es[0].level == 0
            &&& tree@[0].data == es[0]
            &&& match top {
                Some(name) => root_count(es, es.len() as int) == 1 && name@ == name_of(
                    es[0].filename,
                ),
                None => root_count(es, es.len() as int) != 1,
            }
        },
    }
}

/// The lines that were looked at: all of them, or those up to the line of
/// the first orphan.
pub open spec fn lines_read(
    lines: Seq<Seq<char>>,
    r: Result<(Tree, Option<String>), TreeParseError>,
) -> Seq<Seq<char>> {
    match r {
        Err(TreeParseError::OrphanNode { line, .. }) => lines.take(line as int),
        _ => lines,
    }
}

} // verus!
