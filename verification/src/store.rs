//! The task store: an insertion-ordered list of tasks and the operations
//! the command loop dispatches to.
//!
//! The store itself does no input or output. Callers persist the list by
//! writing what [`ToDoList::save`] returns and rebuild it by handing the
//! stored text to [`ToDoList::load`].

use vstd::prelude::*;
use vstd::string::StrSliceExecFns;

use crate::codec::encode_tasks;
use crate::codec::json_list;
use crate::codec::parse_tasks;
use crate::parse::ToDoActions;
use crate::parse::action_of;
use crate::parse::after_colon;
use crate::parse::parse_line;
use crate::task::TaskView;
use crate::task::ToDo;
use crate::task::status_complete;
use crate::task::status_pausing;
use crate::task::status_progress;
use crate::task::status_waiting;
use crate::task::views;
use crate::text::chars_text;
use crate::text::push_all;
use crate::text::string_eq_text;
use crate::text::text_chars;

verus! {

/// Why a stored text could not be loaded.
#[derive(Debug, Clone, Copy, PartialEq, Eq, Structural)]
pub enum LoadError {
    Malformed,
}

/// The model after setting every task named `name` to `status`.
pub open spec fn set_status_spec(
    ts: Seq<TaskView>,
    name: Seq<char>,
    status: Seq<char>,
) -> Seq<TaskView> {
    ts.map_values(
        |t: TaskView|
            if t.name == name {
                TaskView { name: t.name, status: status }
            } else {
                t
            },
    )
}

/// The model after removing every task named `name`, keeping the order of
/// the survivors.
pub open spec fn remove_spec(ts: Seq<TaskView>, name: Seq<char>) -> Seq<TaskView> {
    ts.filter(|t: TaskView| t.name != name)
}

/// A run of spaces.
pub open spec fn spaces(n: int) -> Seq<char> {
    Seq::new(
        if n < 0 {
            0
        } else {
            n
        } as nat,
        |i: int| ' ',
    )
}

/// One line of the status report: the status padded to twenty characters,
/// a space, and the name.
pub open spec fn status_line(t: TaskView) -> Seq<char> {
    t.status + spaces(20 - t.status.len()) + seq![' '] + t.name
}

/// The help text, one line per action, in a fixed order.
pub open spec fn help_lines() -> Seq<Seq<char>> {
    seq![
        "add: <foo>      add the <foo> to the list of todolist"@,
        "process: <foo>  update todolist <foo> to 'progress'"@,
        "pause: <foo>    update todolist <foo> to 'paused'"@,
        "done: <foo>     update todolist <foo> to 'finish'"@,
        "remove: <foo>   delete todolist <foo> from todolist"@,
        "status          show your todolist"@,
        "help            show command of application"@,
        "exit            the way you exit the application"@,
    ]
}

/// `set_status_spec` grows at the back pointwise.
proof fn lemma_set_status_snoc(ts: Seq<TaskView>, t: TaskView, name: Seq<char>, status: Seq<char>)
    ensures
        set_status_spec(ts.push(t), name, status) == set_status_spec(ts, name, status).push(
            if t.name == name {
                TaskView { name: t.name, status: status }
            } else {
                t
            },
        ),
{
    let a = set_status_spec(ts.push(t), name, status);
    let b = set_status_spec(ts, name, status).push(
        if t.name == name {
            TaskView { name: t.name, status: status }
        } else {
            t
        },
    );
    assert forall|j: int| 0 <= j < a.len() implies a[j] == b[j] by {
        assert(ts.push(t)[j] == if j < ts.len() {
            ts[j]
        } else {
            t
        });
    }
    assert(a =~= b);
}

/// `remove_spec` of one more task keeps it exactly when its name differs.
proof fn lemma_remove_snoc(ts: Seq<TaskView>, t: TaskView, name: Seq<char>)
    ensures
        remove_spec(ts.push(t), name) == (if t.name != name {
            remove_spec(ts, name).push(t)
        } else {
            remove_spec(ts, name)
        }),
{
    reveal(Seq::filter);
    assert(ts.push(t).drop_last() =~= ts);
    assert(ts.push(t).last() == t);
}

/// The todo list: an insertion-ordered sequence of tasks.
#[derive(Debug)]
pub struct ToDoList {
    pub list: Vec<ToDo>,
}

impl View for ToDoList {
    type V = Seq<TaskView>;

    open spec fn view(&self) -> Seq<TaskView> {
        views(self.list@)
    }
}

impl ToDoList {
    /// An empty list.
    pub fn new() -> (r: ToDoList)
        ensures
            r@ == Seq::<TaskView>::empty(),
    {
        let r = ToDoList { list: Vec::new() };
        proof {
            assert(r@ =~= Seq::<TaskView>::empty());
        }
        r
    }

    /// Rebuilds a list from the persisted text.
    ///
    /// An empty text is an empty list. The encoding of a list yields
    /// exactly that list, so loading what [`ToDoList::save`] wrote gives
    /// the saved list back. Every other text is malformed.
    pub fn load(text: &str) -> (r: Result<ToDoList, LoadError>)
        ensures
            text@.len() == 0 ==> (r matches Ok(l) && l@ == Seq::<TaskView>::empty()),
            forall|ts: Seq<TaskView>| text@ == #[trigger] json_list(ts) ==> (r matches Ok(l) && l@
                == ts),
            r matches Ok(l) ==> text@.len() == 0 || text@ == json_list(l@),
            r is Err <==> (text@.len() != 0 && !(exists|ts: Seq<TaskView>| text@ == #[trigger]
            json_list(ts))),
    {
        if text.unicode_len() == 0 {
            proof {
                assert forall|ts: Seq<TaskView>| text@ != json_list(ts) by {
                    if text@ == json_list(ts) {
                        if ts.len() == 0 {
                            assert(json_list(ts).len() == 2);
                        } else {
                            assert(json_list(ts).len() >= 4);
                        }
                    }
                }
            }
            return Ok(ToDoList::new());
        }
        let chars = text_chars(text);
        match parse_tasks(&chars) {
            Some(l) => {
                let r = ToDoList { list: l };
                Ok(r)
            },
            None => Err(LoadError::Malformed),
        }
    }

    /// The canonical encoding of the current list, to be persisted.
    pub fn save(&self) -> (r: String)
        ensures
            r@ == json_list(self@),
    {
        let chars = encode_tasks(&self.list);
        chars_text(&chars)
    }

    /// Splits one line of input into its action and its argument.
    pub fn read_input(&self, input: String) -> (r: (ToDoActions, String))
        ensures
            r.0 == action_of(input@),
            r.1@ == after_colon(input@),
    {
        parse_line(input.as_str())
    }

    /// Appends a task with the given name and the `waiting!` status.
    pub fn add(&mut self, item_name: &str)
        ensures
            final(self)@ == old(self)@.push(
                TaskView { name: item_name@, status: status_waiting() },
            ),
    {
        let t = ToDo { name: item_name.to_owned(), status: "waiting!".to_owned() };
        self.list.push(t);
        proof {
            assert(self@ =~= old(self)@.push(
                TaskView { name: item_name@, status: status_waiting() },
            ));
        }
    }

    /// Overwrites the status of every task whose name equals `item_name`;
    /// with no match, the list is unchanged.
    pub fn set_status(&mut self, item_name: &str, new_status: &str)
        ensures
            final(self)@ == set_status_spec(old(self)@, item_name@, new_status@),
    {
        let mut new_list: Vec<ToDo> = Vec::new();
        let mut i: usize = 0;
        let n = self.list.len();
        proof {
            assert(views(new_list@) =~= set_status_spec(
                views(self.list@.take(0)),
                item_name@,
                new_status@,
            ));
        }
        while i < n
            invariant
                i <= n,
                n == self.list@.len(),
                self.list@ == old(self).list@,
                views(new_list@) == set_status_spec(
                    views(self.list@.take(i as int)),
                    item_name@,
                    new_status@,
                ),
            decreases n - i,
        {
            let ghost pv = views(self.list@.take(i as int));
            let ghost tv = self.list@[i as int]@;
            let ghost prev = views(new_list@);
            let t = &self.list[i];
            let new_t = if string_eq_text(&t.name, item_name) {
                ToDo { name: t.name.clone(), status: new_status.to_owned() }
            } else {
                ToDo { name: t.name.clone(), status: t.status.clone() }
            };
            new_list.push(new_t);
            i = i + 1;
            proof {
                assert(views(self.list@.take(i as int)) =~= pv.push(tv));
                lemma_set_status_snoc(pv, tv, item_name@, new_status@);
                assert(views(new_list@) =~= prev.push(new_t@));
                assert(new_t@ == if tv.name == item_name@ {
                    TaskView { name: tv.name, status: new_status@ }
                } else {
                    tv
                });
            }
        }
        self.list = new_list;
        proof {
            assert(old(self).list@.take(n as int) =~= old(self).list@);
        }
    }

    /// Sets every task named `item_name` to `progress`.
    pub fn process(&mut self, item_name: &str)
        ensures
            final(self)@ == set_status_spec(old(self)@, item_name@, status_progress()),
    {
        self.set_status(item_name, "progress");
    }

    /// Sets every task named `item_name` to `pausing!`.
    pub fn pause(&mut self, item_name: &str)
        ensures
            final(self)@ == set_status_spec(old(self)@, item_name@, status_pausing()),
    {
        self.set_status(item_name, "pausing!");
    }

    /// Sets every task named `item_name` to `complete`.
    pub fn done(&mut self, item_name: &str)
        ensures
            final(self)@ == set_status_spec(old(self)@, item_name@, status_complete()),
    {
        self.set_status(item_name, "complete");
    }

    /// Removes every task whose name equals `item_name`, keeping the
    /// order of the survivors; with no match, the list is unchanged.
    pub fn remove(&mut self, item_name: &str)
        ensures
            final(self)@ == remove_spec(old(self)@, item_name@),
    {
        let mut new_list: Vec<ToDo> = Vec::new();
        let mut i: usize = 0;
        let n = self.list.len();
        proof {
            reveal(Seq::filter);
            assert(views(new_list@) =~= remove_spec(views(self.list@.take(0)), item_name@));
        }
        while i < n
            invariant
                i <= n,
                n == self.list@.len(),
                self.list@ == old(self).list@,
                views(new_list@) == remove_spec(views(self.list@.take(i as int)), item_name@),
            decreases n - i,
        {
            let ghost pv = views(self.list@.take(i as int));
            let ghost tv = self.list@[i as int]@;
            let ghost prev = views(new_list@);
            let t = &self.list[i];
            let keep = !string_eq_text(&t.name, item_name);
            if keep {
                new_list.push(ToDo { name: t.name.clone(), status: t.status.clone() });
            }
            i = i + 1;
            proof {
                assert(views(self.list@.take(i as int)) =~= pv.push(tv));
                lemma_remove_snoc(pv, tv, item_name@);
                if keep {
                    assert(views(new_list@) =~= prev.push(tv));
                } else {
                    assert(views(new_list@) =~= prev);
                }
            }
        }
        self.list = new_list;
        proof {
            assert(old(self).list@.take(n as int) =~= old(self).list@);
        }
    }

    /// The status report: one line per task, in list order.
    pub fn status(&self) -> (r: Vec<String>)
        ensures
            r@.len() == self@.len(),
            forall|i: int| 0 <= i < self@.len() ==> r@[i]@ == status_line(self@[i]),
    {
        let mut out: Vec<String> = Vec::new();
        let mut i: usize = 0;
        let n = self.list.len();
        while i < n
            invariant
                i <= n,
                n == self.list@.len(),
                out@.len() == i,
                forall|j: int| 0 <= j < i ==> out@[j]@ == status_line(views(self.list@)[j]),
            decreases n - i,
        {
            let t = &self.list[i];
            let ghost sv = t.status@;
            let ghost nv = t.name@;
            let mut lc: Vec<char> = text_chars(t.status.as_str());
            let status_len = lc.len();
            let pad_n: usize = if status_len >= 20 {
                0
            } else {
                20 - status_len
            };
            let mut pad: usize = 0;
            proof {
                assert(lc@ =~= sv + spaces(0));
            }
            while pad < pad_n
                invariant
                    pad <= pad_n,
                    pad_n as int == (if sv.len() >= 20 {
                        0int
                    } else {
                        20 - sv.len()
                    }),
                    lc@ == sv + spaces(pad as int),
                decreases pad_n - pad,
            {
                lc.push(' ');
                pad = pad + 1;
                proof {
                    assert(lc@ =~= sv + spaces(pad as int));
                }
            }
            lc.push(' ');
            let name_chars = text_chars(t.name.as_str());
            push_all(&mut lc, &name_chars);
            let line = chars_text(&lc);
            proof {
                assert(spaces(pad_n as int) =~= spaces(20 - sv.len()));
                assert(line@ =~= status_line(views(self.list@)[i as int]));
            }
            out.push(line);
            i = i + 1;
        }
        out
    }

    /// The help text: one line per action, in a fixed order.
    pub fn help(&self) -> (r: Vec<String>)
        ensures
            r@.len() == help_lines().len(),
            forall|i: int| 0 <= i < r@.len() ==> r@[i]@ == help_lines()[i],
    {
        let mut out: Vec<String> = Vec::new();
        out.push("add: <foo>      add the <foo> to the list of todolist".to_owned());
        out.push("process: <foo>  update todolist <foo> to 'progress'".to_owned());
        out.push("pause: <foo>    update todolist <foo> to 'paused'".to_owned());
        out.push("done: <foo>     update todolist <foo> to 'finish'".to_owned());
        out.push("remove: <foo>   delete todolist <foo> from todolist".to_owned());
        out.push("status          show your todolist".to_owned());
        out.push("help            show command of application".to_owned());
        out.push("exit            the way you exit the application".to_owned());
        proof {
            assert forall|i: int| 0 <= i < out@.len() implies out@[i]@ == help_lines()[i] by {
            }
        }
        out
    }
}

/// A list built by adds alone: the given names in order, each waiting.
pub open spec fn fresh_tasks(names: Seq<Seq<char>>) -> Seq<TaskView> {
    names.map_values(|n: Seq<char>| TaskView { name: n, status: status_waiting() })
}

/// The model after adding the given names in order, starting from `ts`.
pub open spec fn after_adds(ts: Seq<TaskView>, names: Seq<Seq<char>>) -> Seq<TaskView>
    decreases names.len(),
{
    if names.len() == 0 {
        ts
    } else {
        after_adds(
            ts.push(TaskView { name: names[0], status: status_waiting() }),
            names.skip(1),
        )
    }
}

/// Adding names one after another appends them, in order, each waiting.
pub proof fn lemma_after_adds(ts: Seq<TaskView>, names: Seq<Seq<char>>)
    ensures
        after_adds(ts, names) == ts + fresh_tasks(names),
    decreases names.len(),
{
    if names.len() == 0 {
        assert(ts + fresh_tasks(names) =~= ts);
    } else {
        let hd = TaskView { name: names[0], status: status_waiting() };
        lemma_after_adds(ts.push(hd), names.skip(1));
        assert(fresh_tasks(names.skip(1)) =~= fresh_tasks(names).skip(1));
        assert(ts.push(hd) + fresh_tasks(names).skip(1) =~= ts + fresh_tasks(names));
    }
}

/// Adding a sequence of names to an empty list yields exactly those names
/// in insertion order, each with the `waiting!` status — so the status
/// report lists exactly those names, in that order.
pub proof fn lemma_adds_then_status(names: Seq<Seq<char>>)
    ensures
        after_adds(Seq::empty(), names) == fresh_tasks(names),
        fresh_tasks(names).len() == names.len(),
        forall|i: int| 0 <= i < names.len() ==> fresh_tasks(names)[i] == (TaskView {
            name: names[i],
            status: status_waiting(),
        }),
        forall|i: int| 0 <= i < names.len() ==> status_line(#[trigger] fresh_tasks(names)[i])
            == status_waiting() + spaces(12) + seq![' '] + names[i],
{
    lemma_after_adds(Seq::empty(), names);
    assert(Seq::empty() + fresh_tasks(names) =~= fresh_tasks(names));
    assert forall|i: int| 0 <= i < names.len() implies status_line(
        #[trigger] fresh_tasks(names)[i],
    ) == status_waiting() + spaces(12) + seq![' '] + names[i] by {
        reveal_strlit("waiting!");
        assert(status_waiting().len() == 8);
    }
}

/// Removing a name a second time changes nothing: after one removal no
/// task with that name remains.
pub proof fn lemma_remove_idempotent(ts: Seq<TaskView>, name: Seq<char>)
    ensures
        remove_spec(remove_spec(ts, name), name) == remove_spec(ts, name),
    decreases ts.len(),
{
    if ts.len() == 0 {
        reveal(Seq::filter);
        assert(remove_spec(ts, name) =~= ts);
    } else {
        let pre = ts.drop_last();
        lemma_remove_idempotent(pre, name);
        assert(pre.push(ts.last()) =~= ts);
        lemma_remove_snoc(pre, ts.last(), name);
        if ts.last().name != name {
            let f = remove_spec(pre, name);
            lemma_remove_snoc(f, ts.last(), name);
        }
    }
}

/// Setting a status for a name that no task carries changes nothing: the
/// length and every entry stay as they were.
pub proof fn lemma_set_status_no_match(ts: Seq<TaskView>, name: Seq<char>, status: Seq<char>)
    requires
        forall|i: int| 0 <= i < ts.len() ==> ts[i].name != name,
    ensures
        set_status_spec(ts, name, status) == ts,
{
    assert(set_status_spec(ts, name, status) =~= ts);
}

/// Setting a status keeps the length and the order: every task with the
/// name is updated, every other task is untouched.
pub proof fn lemma_set_status_matches(ts: Seq<TaskView>, name: Seq<char>, status: Seq<char>)
    ensures
        set_status_spec(ts, name, status).len() == ts.len(),
        forall|i: int| 0 <= i < ts.len() && ts[i].name == name ==> #[trigger] set_status_spec(
            ts,
            name,
            status,
        )[i] == (TaskView { name: ts[i].name, status: status }),
        forall|i: int| 0 <= i < ts.len() && ts[i].name != name ==> #[trigger] set_status_spec(
            ts,
            name,
            status,
        )[i] == ts[i],
{
}

} // verus!
