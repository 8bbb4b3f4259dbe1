//! Tasks from markdown checklists (`- [ ] ...`, `- [x] ...`) in a
//! repository's markdown files, and the rules by which those files are found.
use vstd::prelude::*;
use crate::model::{Task, TaskStatus, StatusView, texts};
use crate::sources::SourceLoadResult;
use crate::sources::beads::opt_text;
use crate::text::{
    lemma_decimal_injective, decimal, lines_seq, trim_seq, trim_start_seq, starts_with_seq, chars_of, lines_of,
    trim_start_index, chars_start_with, trim_chars, string_from_chars, push_decimal, text_eq,
};

verus! {

/// Directories are searched this deep below the root, and no deeper.
pub const MAX_SCAN_DEPTH: usize = 6;

/// A markdown file found under the root: its path, displayed, and its text,
/// or none when it could not be read.
pub struct MarkdownFile {
    pub path: String,
    pub content: Option<String>,
}

/// A checklist item: where it stands, its status and its title.
pub struct ChecklistItem {
    pub path: Seq<char>,
    /// The line number, counting from 1.
    pub line: nat,
    pub status: StatusView,
    pub title: Seq<char>,
}

/// The status and title of a line when it is a checklist item: after leading
/// whitespace, `- [ ] ` marks an open item and `- [x] ` or `- [X] ` a done
/// one; the title is the rest of the line, trimmed.
pub open spec fn checklist_line(line: Seq<char>) -> Option<(StatusView, Seq<char>)> {
    let t = trim_start_seq(line);
    if starts_with_seq(t, "- [ ] "@) {
        Some((StatusView::Open, trim_seq(t.skip(6))))
    } else if starts_with_seq(t, "- [x] "@) {
        Some((StatusView::Done, trim_seq(t.skip(6))))
    } else if starts_with_seq(t, "- [X] "@) {
        Some((StatusView::Done, trim_seq(t.skip(6))))
    } else {
        None
    }
}

/// The checklist items among `lines` of the file at `path`, in order.
pub open spec fn checklist_items_of_lines(path: Seq<char>, lines: Seq<Seq<char>>) -> Seq<
    ChecklistItem,
>
    decreases lines.len(),
{
    if lines.len() == 0 {
        seq![]
    } else {
        let rest = checklist_items_of_lines(path, lines.drop_last());
        match checklist_line(lines.last()) {
            Some((status, title)) => rest.push(
                ChecklistItem { path, line: lines.len(), status, title },
            ),
            None => rest,
        }
    }
}

/// The checklist items of the text `content` of the file at `path`.
pub open spec fn checklist_items(path: Seq<char>, content: Seq<char>) -> Seq<ChecklistItem> {
    checklist_items_of_lines(path, lines_seq(content))
}

/// The checklist items of the readable files, file by file.
pub open spec fn files_items(files: Seq<MarkdownFile>) -> Seq<ChecklistItem>
    decreases files.len(),
{
    if files.len() == 0 {
        seq![]
    } else {
        let rest = files_items(files.drop_last());
        let f = files.last();
        match f.content {
            Some(c) => rest + checklist_items(f.path@, c@),
            None => rest,
        }
    }
}

/// The id of the item on line `line` of the file at `path`.
pub open spec fn checklist_id(path: Seq<char>, line: nat) -> Seq<char> {
    "md:"@ + path + ":"@ + decimal(line)
}

/// `t` is the task of the checklist item `item`.
pub open spec fn is_task_of_item(t: Task, item: ChecklistItem) -> bool {
    &&& t.id@ == checklist_id(item.path, item.line)
    &&& t.title@ == item.title
    &&& t.status@ == item.status
    &&& t.source@ == "markdown"@
    &&& opt_text(t.source_path) == Some(item.path)
    &&& t.assignee is None
    &&& t.claimed_at is None
    &&& t.completed_at is None
    &&& t.updated_at is None
    &&& t.dependency_ids@.len() == 0
    &&& t.dependent_ids@.len() == 0
    &&& t.url is None
}

/// The tasks are those of the items, in order.
pub open spec fn are_tasks_of_items(tasks: Seq<Task>, items: Seq<ChecklistItem>) -> bool {
    &&& tasks.len() == items.len()
    &&& forall|k: int| 0 <= k < items.len() ==> is_task_of_item(#[trigger] tasks[k], items[k])
}

fn checklist_task(path: &String, line_no: usize, status: TaskStatus, title: String) -> (t: Task)
    ensures
        t.id@ == checklist_id(path@, line_no as nat),
        t.title@ == title@,
        t.status@ == status@,
        t.source@ == "markdown"@,
        opt_text(t.source_path) == Some(path@),
        t.assignee is None,
        t.claimed_at is None,
        t.completed_at is None,
        t.updated_at is None,
        t.dependency_ids@.len() == 0,
        t.dependent_ids@.len() == 0,
        t.url is None,
{
    let mut id = String::from_str("md:");
    id.append(path.as_str());
    id.append(":");
    push_decimal(&mut id, line_no);
    Task {
        id,
        title,
        status,
        source: String::from_str("markdown"),
        source_path: Some(path.clone()),
        assignee: None,
        claimed_at: None,
        completed_at: None,
        updated_at: None,
        dependency_ids: Vec::new(),
        dependent_ids: Vec::new(),
        url: None,
    }
}

/// The status and title of a line when it is a checklist item.
fn parse_line(line: &Vec<char>, p_open: &Vec<char>, p_done: &Vec<char>, p_done_upper: &Vec<char>) -> (r: Option<(TaskStatus, String)>)
    requires
        p_open@ == "- [ ] "@,
        p_done@ == "- [x] "@,
        p_done_upper@ == "- [X] "@,
    ensures
        match r {
            Some((status, title)) => checklist_line(line@) == Some((status@, title@)),
            None => checklist_line(line@) is None,
        },
{
    proof {
        reveal_strlit("- [ ] ");
        reveal_strlit("- [x] ");
        reveal_strlit("- [X] ");
    }
    let i = trim_start_index(line);
    let ghost t = trim_start_seq(line@);
    assert(line@.skip(i as int) == t);
    let status = if chars_start_with(line, i, p_open) {
        TaskStatus::Open
    } else if chars_start_with(line, i, p_done) || chars_start_with(line, i, p_done_upper) {
        TaskStatus::Done
    } else {
        return None;
    };
    // the rest of the line after the six-character marker
    let mut rest: Vec<char> = Vec::new();
    let mut k = i + 6;
    while k < line.len()
        invariant
            i + 6 <= k <= line.len(),
            rest@ == line@.subrange(i + 6, k as int),
        decreases line.len() - k,
    {
        rest.push(line[k]);
        k += 1;
        assert(rest@ =~= line@.subrange(i + 6, k as int));
    }
    assert(rest@ =~= t.skip(6));
    let title = trim_chars(&rest);
    Some((status, string_from_chars(&title)))
}

/// The tasks of the checklist items in the text `content` of the file at
/// `path`: one per item, in line order.
pub fn parse_checklist(path: &String, content: &str) -> (r: Vec<Task>)
    ensures
        are_tasks_of_items(r@, checklist_items(path@, content@)),
{
    let cs = chars_of(content);
    let lines = lines_of(&cs);
    let p_open = chars_of("- [ ] ");
    let p_done = chars_of("- [x] ");
    let p_done_upper = chars_of("- [X] ");
    let mut tasks: Vec<Task> = Vec::new();
    let mut i: usize = 0;
    let ghost ls = lines_seq(content@);
    assert(ls.take(0) =~= Seq::<Seq<char>>::empty());
    while i < lines.len()
        invariant
            i <= lines.len(),
            ls == lines_seq(content@),
            crate::text::char_rows(lines@) == ls,
            p_open@ == "- [ ] "@,
            p_done@ == "- [x] "@,
            p_done_upper@ == "- [X] "@,
            are_tasks_of_items(tasks@, checklist_items_of_lines(path@, ls.take(i as int))),
        decreases lines.len() - i,
    {
        assert(ls[i as int] == lines@[i as int]@);
        assert(ls.take(i + 1).drop_last() =~= ls.take(i as int));
        assert(ls.take(i + 1).last() == ls[i as int]);
        match parse_line(&lines[i], &p_open, &p_done, &p_done_upper) {
            Some((status, title)) => {
                let t = checklist_task(path, i + 1, status, title);
                tasks.push(t);
            },
            None => {},
        }
        i += 1;
    }
    assert(ls.take(i as int) =~= ls);
    tasks
}

/// The markdown tasks of a repository: the checklist items of the readable
/// files, file by file in the order given; unreadable files are skipped.
pub fn load(files: &Vec<MarkdownFile>) -> (r: SourceLoadResult)
    ensures
        are_tasks_of_items(r.tasks@, files_items(files@)),
        r.warnings@.len() == 0,
        r.trail_events@.len() == 0,
{
    let mut tasks: Vec<Task> = Vec::new();
    let mut i: usize = 0;
    assert(files@.take(0) =~= Seq::<MarkdownFile>::empty());
    while i < files.len()
        invariant
            i <= files.len(),
            are_tasks_of_items(tasks@, files_items(files@.take(i as int))),
        decreases files.len() - i,
    {
        assert(files@.take(i + 1).drop_last() =~= files@.take(i as int));
        assert(files@.take(i + 1).last() == files@[i as int]);
        let file = &files[i];
        match &file.content {
            Some(content) => {
                let mut found = parse_checklist(&file.path, content.as_str());
                let ghost before = tasks@;
                let ghost items = checklist_items(file.path@, content@);
                tasks.append(&mut found);
                assert(are_tasks_of_items(
                    tasks@,
                    files_items(files@.take(i as int)) + items,
                )) by {
                    assert forall|k: int|
                        0 <= k < tasks@.len() implies is_task_of_item(
                        #[trigger] tasks@[k],
                        (files_items(files@.take(i as int)) + items)[k],
                    ) by {
                        if k < before.len() {
                            assert(tasks@[k] == before[k]);
                        }
                    }
                }
            },
            None => {},
        }
        i += 1;
    }
    assert(files@.take(i as int) =~= files@);
    SourceLoadResult { tasks, warnings: Vec::new(), trail_events: Vec::new() }
}

proof fn lemma_item_lines_increase(path: Seq<char>, lines: Seq<Seq<char>>)
    ensures
        forall|i: int|
            0 <= i < checklist_items_of_lines(path, lines).len() ==> 1 <= (
            #[trigger] checklist_items_of_lines(path, lines)[i]).line <= lines.len()
                && checklist_items_of_lines(path, lines)[i].path == path,
        forall|i: int, j: int|
            0 <= i < j < checklist_items_of_lines(path, lines).len() ==> (
            #[trigger] checklist_items_of_lines(path, lines)[i]).line < (
            #[trigger] checklist_items_of_lines(path, lines)[j]).line,
    decreases lines.len(),
{
    if lines.len() > 0 {
        lemma_item_lines_increase(path, lines.drop_last());
    }
}

proof fn lemma_items_of_lines_match(path: Seq<char>, lines: Seq<Seq<char>>)
    ensures
        forall|k: int|
            0 <= k < checklist_items_of_lines(path, lines).len() ==> {
                let item = #[trigger] checklist_items_of_lines(path, lines)[k];
                let l = trim_start_seq(lines[item.line - 1]);
                &&& 1 <= item.line <= lines.len()
                &&& (item.status == StatusView::Open) == starts_with_seq(l, "- [ ] "@)
                &&& (item.status == StatusView::Done) == (!starts_with_seq(l, "- [ ] "@) && (
                starts_with_seq(l, "- [x] "@) || starts_with_seq(l, "- [X] "@)))
                &&& item.title == trim_seq(l.skip(6))
            },
    decreases lines.len(),
{
    if lines.len() > 0 {
        let p = lines.drop_last();
        lemma_items_of_lines_match(path, p);
        lemma_item_lines_increase(path, p);
        let rest = checklist_items_of_lines(path, p);
        assert forall|k: int| 0 <= k < checklist_items_of_lines(path, lines).len() implies {
            let item = #[trigger] checklist_items_of_lines(path, lines)[k];
            let l = trim_start_seq(lines[item.line - 1]);
            &&& 1 <= item.line <= lines.len()
            &&& (item.status == StatusView::Open) == starts_with_seq(l, "- [ ] "@)
            &&& (item.status == StatusView::Done) == (!starts_with_seq(l, "- [ ] "@) && (
            starts_with_seq(l, "- [x] "@) || starts_with_seq(l, "- [X] "@)))
            &&& item.title == trim_seq(l.skip(6))
        } by {
            if k < rest.len() {
                assert(checklist_items_of_lines(path, lines)[k] == rest[k]);
                assert(lines[rest[k].line - 1] == p[rest[k].line - 1]);
            }
        }
    }
}

/// Each checklist item comes from the line it names, whose text after its
/// leading whitespace begins with `- [ ] ` (an open item) or else with
/// `- [x] ` or `- [X] ` (a done item); its title is the rest of that line,
/// trimmed.
pub proof fn lemma_checklist_items_match_lines(path: Seq<char>, content: Seq<char>)
    ensures
        forall|k: int|
            0 <= k < checklist_items(path, content).len() ==> {
                let item = #[trigger] checklist_items(path, content)[k];
                let l = trim_start_seq(lines_seq(content)[item.line - 1]);
                &&& item.path == path
                &&& 1 <= item.line <= lines_seq(content).len()
                &&& (item.status == StatusView::Open) == starts_with_seq(l, "- [ ] "@)
                &&& (item.status == StatusView::Done) == (!starts_with_seq(l, "- [ ] "@) && (
                starts_with_seq(l, "- [x] "@) || starts_with_seq(l, "- [X] "@)))
                &&& item.title == trim_seq(l.skip(6))
            },
{
    lemma_items_of_lines_match(path, lines_seq(content));
    lemma_item_lines_increase(path, lines_seq(content));
}

/// Within one file, distinct checklist items have distinct task ids.
pub proof fn lemma_checklist_ids_unique(path: Seq<char>, content: Seq<char>)
    ensures
        forall|i: int, j: int|
            0 <= i < j < checklist_items(path, content).len() ==> checklist_id(
                path,
                (#[trigger] checklist_items(path, content)[i]).line,
            ) != checklist_id(path, (#[trigger] checklist_items(path, content)[j]).line),
{
    let items = checklist_items(path, content);
    lemma_item_lines_increase(path, lines_seq(content));
    assert forall|i: int, j: int| 0 <= i < j < items.len() implies checklist_id(
        path,
        (#[trigger] items[i]).line,
    ) != checklist_id(path, (#[trigger] items[j]).line) by {
        let prefix = "md:"@ + path + ":"@;
        let a = checklist_id(path, items[i].line);
        let b = checklist_id(path, items[j].line);
        if a == b {
            assert(a.skip(prefix.len() as int) =~= decimal(items[i].line));
            assert(b.skip(prefix.len() as int) =~= decimal(items[j].line));
            lemma_decimal_injective(items[i].line, items[j].line);
        }
    }
}

/// Directories that the search for markdown files does not enter.
pub open spec fn is_skipped_dir_name(name: Seq<char>) -> bool {
    name == ".git"@ || name == ".beads"@ || name == "target"@ || name == "node_modules"@ || name
        == ".idea"@ || name == ".zed"@
}

/// Whether the search for markdown files passes over the directory `name`.
pub fn is_skipped_dir(name: &str) -> (r: bool)
    ensures
        r == is_skipped_dir_name(name@),
{
    text_eq(name, ".git") || text_eq(name, ".beads") || text_eq(name, "target") || text_eq(
        name,
        "node_modules",
    ) || text_eq(name, ".idea") || text_eq(name, ".zed")
}

/// Whether a file with extension `ext` is a markdown file.
pub fn is_markdown_extension(ext: &str) -> (r: bool)
    ensures
        r == (ext@ == "md"@ || ext@ == "markdown"@),
{
    text_eq(ext, "md") || text_eq(ext, "markdown")
}

/// Whether a directory `depth` levels below the root is searched.
pub fn within_scan_depth(depth: usize) -> (r: bool)
    ensures
        r == (depth <= MAX_SCAN_DEPTH),
{
    depth <= MAX_SCAN_DEPTH
}

} // verus!
