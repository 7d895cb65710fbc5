//! What holds of what is shown.
use crate::commands::task::TaskView;
use crate::error::{IssueModel, IssueSeverity};
use crate::frontmatter;
use crate::model::TaskModel;
use crate::output;
use crate::text;
use vstd::prelude::*;

verus! {

/// A text that is filled up keeps what it holds, is at least as wide as was asked for, is no
/// wider unless it was, and has only spaces besides.
pub proof fn filling_up_adds_spaces_only(s: Seq<char>, width: int)
    ensures
        ({
            let (left, right) = (output::padded(s, width), output::aligned(s, width));
            &&& text::begins(left, s)
            &&& text::ends(right, s)
            &&& left.len() == right.len() == (if s.len() < width {
                width
            } else {
                s.len() as int
            })
            &&& forall|i: int| s.len() <= i < left.len() ==> #[trigger] left[i] == ' '
            &&& forall|i: int| 0 <= i < right.len() - s.len() ==> #[trigger] right[i] == ' '
        }),
{
    let (left, right) = (output::padded(s, width), output::aligned(s, width));
    assert(left.subrange(0, s.len() as int) =~= s);
    assert(right.subrange(right.len() - s.len(), right.len() as int) =~= s);
}

/// A short list shows as many tasks as there are, but no more than was asked for.
pub proof fn short_lists_keep_to_their_limit(n: int, limit: Option<u32>)
    requires
        0 <= n,
    ensures
        0 <= output::shown(n, limit) <= n,
        limit matches Some(most) ==> output::shown(n, limit) <= most && (n <= most
            ==> output::shown(n, limit) == n) && (n > most ==> output::shown(n, limit) == most),
        limit is None ==> output::shown(n, limit) == n,
{
}

/// The line of a task begins with its ID and ends with its name, and is marked just where the
/// task recurs.
pub proof fn lines_of_tasks_say_which_they_are(task: TaskModel)
    ensures
        text::begins(output::task_line(task), task.id),
        text::ends(output::task_line(task), task.name),
        text::begins(output::short_line(task), task.id),
        text::ends(output::short_line(task), task.name),
        text::stands_at(output::task_line(task), task.state, task.id.len() as int + 2),
        text::stands_at(output::short_line(task), task.state, task.id.len() as int + 2),
{
    reveal_strlit("  ");
    let (long, short) = (output::task_line(task), output::short_line(task));
    let (n, m) = (task.id.len() as int, task.name.len() as int);
    let k = task.state.len() as int;
    let middle = output::padded(task.state, 10);
    assert(long.subrange(0, n) =~= task.id);
    assert(short.subrange(0, n) =~= task.id);
    assert(long.subrange(long.len() - m, long.len() as int) =~= task.name);
    assert(short.subrange(short.len() - m, short.len() as int) =~= task.name);
    assert(long.subrange(n + 2, n + 2 + k) =~= task.state);
    assert(short.subrange(n + 2, n + 2 + k) =~= task.state);
}

/// The line of a task that recurs is that of the same task without its rule, with a mark behind
/// its due date.
pub proof fn recurring_tasks_are_marked(task: TaskModel, once: TaskModel)
    requires
        task.recurrence is Some,
        once == (TaskModel { recurrence: None, ..task }),
    ensures
        output::task_line(task).len() == output::task_line(once).len() + 2,
        exists|at: int|
            0 <= at <= output::task_line(once).len() && output::task_line(task)
                == #[trigger] output::task_line(once).take(at) + " ↻"@ + output::task_line(
                once,
            ).skip(at),
{
    reveal_strlit(" ↻");
    reveal_strlit("");
    let (marked, plain) = (output::task_line(task), output::task_line(once));
    let head = task.id + "  "@ + output::padded(task.state, 10) + "  "@ + output::or_dash(
        frontmatter::date_opt(task.due_date),
    );
    let at = head.len() as int;
    assert(plain.take(at) =~= head);
    assert(marked =~= plain.take(at) + " ↻"@ + plain.skip(at));
}

/// The line of an issue begins with what it is, an error or a warning, and its code, and ends
/// with its message.
pub proof fn lines_of_issues_say_what_they_are(issue: IssueModel)
    ensures
        issue.severity == IssueSeverity::Error ==> text::begins(
            output::issue_line(issue),
            "error["@ + issue.code + "] "@,
        ),
        issue.severity != IssueSeverity::Error ==> text::begins(
            output::issue_line(issue),
            "warning["@ + issue.code + "] "@,
        ),
        text::ends(output::issue_line(issue), ": "@ + issue.message),
{
    let line = output::issue_line(issue);
    let (a, b) = ("error["@ + issue.code + "] "@, "warning["@ + issue.code + "] "@);
    let end = ": "@ + issue.message;
    if issue.severity == IssueSeverity::Error {
        assert(line.subrange(0, a.len() as int) =~= a);
    } else {
        assert(line.subrange(0, b.len() as int) =~= b);
    }
    assert(line.subrange(line.len() - end.len(), line.len() as int) =~= end);
}

/// The details of a task have a line for each property, with its value, or a dash where it has
/// none; the body comes last.
pub proof fn details_show_each_property(view: TaskView)
    ensures
        output::details(view).contains("id: "@ + view.id@),
        output::details(view).contains("name: "@ + view.name@),
        output::details(view).contains("state: "@ + view.state@),
        view.parent matches Some(parent) ==> output::details(view).contains("parent: "@ + parent@),
        view.due_date matches Some(date) ==> output::details(view).contains("due_date: "@ + date@),
        view.due_time matches Some(time) ==> output::details(view).contains("due_time: "@ + time@),
        view.url matches Some(url) ==> output::details(view).contains("url: "@ + url@),
        view.recurrence matches Some(rule) ==> output::details(view).contains(
            "recurrence: "@ + rule@,
        ),
        view.recurrence_from matches Some(mode) ==> output::details(view).contains(
            "recurrence_from: "@ + mode@,
        ),
        view.last_completed_date matches Some(date) ==> output::details(view).contains(
            "last_completed_date: "@ + date@,
        ),
        view.due_date is None ==> output::details(view).contains("due_date: "@ + "-"@),
        view.parent is None ==> output::details(view).contains("parent: "@ + "-"@),
        output::details(view).last() == view.body@,
{
    let lines = output::details(view);
    assert(lines[0] == "id: "@ + view.id@);
    assert(lines[2] == "name: "@ + view.name@);
    assert(lines[3] == "state: "@ + view.state@);
    assert(lines[7] == "parent: "@ + output::or_dash(text::opt(view.parent)));
    assert(lines[8] == "url: "@ + output::or_dash(text::opt(view.url)));
    assert(lines[9] == "due_date: "@ + output::or_dash(text::opt(view.due_date)));
    assert(lines[10] == "due_time: "@ + output::or_dash(text::opt(view.due_time)));
    assert(lines[11] == "recurrence: "@ + output::or_dash(text::opt(view.recurrence)));
    assert(lines[12] == "recurrence_from: "@ + output::or_dash(text::opt(view.recurrence_from)));
    assert(lines[13] == "last_completed_date: "@ + output::or_dash(
        text::opt(view.last_completed_date),
    ));
}

/// Whether none of the arguments ends the options or asks for a format.
pub open spec fn formatless(arguments: Seq<Seq<char>>) -> bool {
    forall|i: int|
        0 <= i < arguments.len() ==> (#[trigger] arguments[i]) != "--"@ && !text::begins(
            arguments[i],
            "--format"@,
        )
}

/// Results are written as JSON where a format is asked for that is JSON, in small letters or
/// capitals, before the options end; nothing behind that end asks for it.
pub proof fn json_is_written_where_it_is_asked_for(
    before: Seq<Seq<char>>,
    word: Seq<char>,
    behind: Seq<Seq<char>>,
)
    requires
        formatless(before),
        text::lower(word) == "json"@,
    ensures
        !output::json_asked(before, 0, false),
        output::json_asked(before + seq!["--format"@, word] + behind, 0, false),
        output::json_asked(before + seq!["--format="@ + word] + behind, 0, false),
        !output::json_asked(before + seq!["--"@] + behind, 0, false),
{
    reveal_strlit("--");
    reveal_strlit("--format");
    reveal_strlit("--format=");
    assert("--"@.len() == 2 && "--format"@.len() == 8 && "--format="@.len() == 9);
    let n = before.len() as int;
    lemma_formatless(before, before, 0);
    let a = before + seq!["--format"@, word] + behind;
    lemma_formatless(before, a, 0);
    assert(a[n] == "--format"@ && a[n + 1] == word);
    lemma_once_asked(a, n + 2);
    let b = before + seq!["--format="@ + word] + behind;
    lemma_formatless(before, b, 0);
    let asking = "--format="@ + word;
    assert(b[n] == asking);
    assert(asking.subrange(0, 9) =~= "--format="@);
    assert(asking.skip(9) =~= word);
    assert(asking[2] == 'f');
    assert(asking[8] == '=');
    assert("--format"@[2] == 'f');
    if asking == "--format"@ {
        assert(asking.len() == 8);
    }
    if asking == "--"@ {
        assert(asking.len() == 2);
    }
    lemma_once_asked(b, n + 1);
    let c = before + seq!["--"@] + behind;
    lemma_formatless(before, c, 0);
    assert(c[n] == "--"@);
}

proof fn lemma_formatless(before: Seq<Seq<char>>, all: Seq<Seq<char>>, i: int)
    requires
        0 <= i <= before.len(),
        formatless(before),
        before.len() <= all.len(),
        forall|k: int| 0 <= k < before.len() ==> #[trigger] all[k] == before[k],
    ensures
        output::json_asked(all, i, false) == output::json_asked(all, before.len() as int, false),
    decreases before.len() - i,
{
    if i < before.len() {
        let word = before[i];
        assert(all[i] == word);
        assert(word != "--"@ && !text::begins(word, "--format"@));
        reveal_strlit("--format");
        reveal_strlit("--format=");
        if text::begins(word, "--format="@) {
            assert(word.subrange(0, 9) == "--format="@);
            assert(word.subrange(0, 8) =~= word.subrange(0, 9).take(8));
            assert("--format="@.take(8) =~= "--format"@);
        }
        if word == "--format"@ {
            assert(word.subrange(0, 8) =~= word);
        }
        lemma_formatless(before, all, i + 1);
    }
}

proof fn lemma_once_asked(all: Seq<Seq<char>>, i: int)
    ensures
        output::json_asked(all, i, true),
    decreases all.len() - i + 1,
{
    if i < all.len() && all[i] != "--"@ {
        if all[i] == "--format"@ {
            lemma_once_asked(all, i + 2);
        } else {
            lemma_once_asked(all, i + 1);
        }
    }
}

} // verus!
