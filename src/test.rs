//! Helpers that build tasks for exercising the library.

use vstd::prelude::*;

use crate::ser::tags::Id as SerId;
use crate::ser::tags::Tag as SerTag;
use crate::ser::tags::Template as SerTemplate;
use crate::ser::tasks::Task as SerTask;
use crate::tags::COMPLETE_TAG;

verus! {

/// The decimal digits of `n`, most significant first, without sign or
/// leading zeros.
pub open spec fn decimal(n: nat) -> Seq<char>
    decreases n,
{
    let digits = seq!['0', '1', '2', '3', '4', '5', '6', '7', '8', '9'];
    if n < 10 {
        seq![digits[n as int]]
    } else {
        decimal(n / 10).push(digits[(n % 10) as int])
    }
}

/// The decimal digit `d`, as a string of one character.
fn digit_str(d: usize) -> (r: &'static str)
    requires
        d < 10,
    ensures
        r@ == seq![seq!['0', '1', '2', '3', '4', '5', '6', '7', '8', '9'][d as int]],
{
    proof {
        reveal_strlit("0");
        reveal_strlit("1");
        reveal_strlit("2");
        reveal_strlit("3");
        reveal_strlit("4");
        reveal_strlit("5");
        reveal_strlit("6");
        reveal_strlit("7");
        reveal_strlit("8");
        reveal_strlit("9");
    }
    let r = if d == 0 {
        "0"
    } else if d == 1 {
        "1"
    } else if d == 2 {
        "2"
    } else if d == 3 {
        "3"
    } else if d == 4 {
        "4"
    } else if d == 5 {
        "5"
    } else if d == 6 {
        "6"
    } else if d == 7 {
        "7"
    } else if d == 8 {
        "8"
    } else {
        "9"
    };
    proof {
        assert(r@ =~= seq![seq!['0', '1', '2', '3', '4', '5', '6', '7', '8', '9'][d as int]]);
    }
    r
}

/// Append the decimal digits of `n` to `s`.
fn push_decimal(s: &mut String, n: usize)
    ensures
        final(s)@ == old(s)@ + decimal(n as nat),
    decreases n,
{
    if n >= 10 {
        push_decimal(s, n / 10);
    }
    s.append(digit_str(n % 10));
    proof {
        if n >= 10 {
            assert(old(s)@ + decimal((n / 10) as nat) + seq![seq!['0', '1', '2', '3', '4', '5', '6', '7', '8', '9'][(n % 10) as int]]
                =~= old(s)@ + decimal(n as nat));
        } else {
            assert(decimal(n as nat) == seq![seq!['0', '1', '2', '3', '4', '5', '6', '7', '8', '9'][n as int]]);
        }
    }
}

/// The decimal digits of `n`.
fn decimal_string(n: usize) -> (r: String)
    ensures
        r@ == decimal(n as nat),
{
    let mut s = String::new();
    push_decimal(&mut s, n);
    proof {
        assert(s@ =~= decimal(n as nat));
    }
    s
}

/// Create `count` tasks without tags, with summaries "1", "2", ... in order.
pub fn make_tasks(count: usize) -> (r: Vec<SerTask>)
    ensures
        r@.len() == count,
        forall|i: int|
            0 <= i < count ==> (#[trigger] r@[i]).summary@ == decimal((i + 1) as nat) && r@[i].tags@.len()
                == 0,
{
    let mut tasks: Vec<SerTask> = Vec::new();
    let mut i: usize = 0;
    while i < count
        invariant
            i <= count,
            tasks@.len() == i,
            forall|k: int|
                0 <= k < i ==> (#[trigger] tasks@[k]).summary@ == decimal((k + 1) as nat)
                    && tasks@[k].tags@.len() == 0,
        decreases count - i,
    {
        let tags: Vec<SerTag> = Vec::new();
        tasks.push(SerTask { summary: decimal_string(i + 1), tags });
        i = i + 1;
    }
    tasks
}

/// The positions, among the tags of `make_tasks_with_tags`, of the tags of
/// task `x`: the first ("complete") for every second task, the newest for
/// tasks from the fifth on, and all older ones but the first for the third
/// and fourth of each later group of four.
pub open spec fn fixture_tag_indices(x: nat) -> Seq<nat> {
    (if x % 2 == 1 {
        seq![0nat]
    } else {
        Seq::empty()
    }) + (if x >= 4 {
        seq![x / 4]
    } else {
        Seq::empty()
    }) + (if x >= 8 && x % 4 >= 2 {
        Seq::new((x / 4 - 1) as nat, |i: int| (i + 1) as nat)
    } else {
        Seq::empty()
    })
}

/// The name of the `x`-th template of `make_tasks_with_tags`.
pub open spec fn fixture_template_name(x: nat) -> Seq<char> {
    if x == 0 {
        seq!['c', 'o', 'm', 'p', 'l', 'e', 't', 'e']
    } else {
        seq!['t', 'a', 'g'] + decimal(x)
    }
}

/// Create `count` tasks with tags, and the tags and templates they use.
///
/// There are `count / 4 + 1` templates, with identifiers 1, 2, ...: the
/// first named "complete", the others "tag1", "tag2", ... . Task `x`
/// (counting from 0) has summary `x + 1` and the tags that
/// `fixture_tag_indices(x)` gives:
///
/// task1  -> []
/// task2  -> [complete]
/// task3  -> []
/// task4  -> [complete]
/// task5  -> [tag1]
/// task6  -> [complete + tag1]
/// ...
/// task11 -> [tag2 + tag1]
/// task12 -> [complete + tag2 + tag1]
pub fn make_tasks_with_tags(count: usize) -> (r: (Vec<SerTag>, Vec<SerTemplate>, Vec<SerTask>))
    ensures
        r.0@.len() == count / 4 + 1,
        forall|i: int| 0 <= i < r.0@.len() ==> (#[trigger] r.0@[i]).id@ == i + 1,
        r.1@.len() == count / 4 + 1,
        forall|i: int|
            0 <= i < r.1@.len() ==> (#[trigger] r.1@[i]).id@ == i + 1 && r.1@[i].name@
                == fixture_template_name(i as nat),
        r.2@.len() == count,
        forall|x: int|
            0 <= x < count ==> (#[trigger] r.2@[x]).summary@ == decimal((x + 1) as nat)
                && r.2@[x].tags@.len() == fixture_tag_indices(x as nat).len() && forall|j: int|
                0 <= j < r.2@[x].tags@.len() ==> (#[trigger] r.2@[x].tags@[j]).id@
                    == fixture_tag_indices(x as nat)[j] + 1,
{
    let n = count / 4 + 1;
    let mut tags: Vec<SerTag> = Vec::new();
    let mut templates: Vec<SerTemplate> = Vec::new();
    let mut i: usize = 0;
    while i < n
        invariant
            n == count / 4 + 1,
            i <= n,
            tags@.len() == i,
            templates@.len() == i,
            forall|k: int| 0 <= k < i ==> (#[trigger] tags@[k]).id@ == k + 1,
            forall|k: int|
                0 <= k < i ==> (#[trigger] templates@[k]).id@ == k + 1 && templates@[k].name@
                    == fixture_template_name(k as nat),
        decreases n - i,
    {
        let name = if i == 0 {
            proof {
                reveal_strlit("complete");
            }
            let name = String::from_str(COMPLETE_TAG);
            proof {
                assert(name@ =~= fixture_template_name(0));
            }
            name
        } else {
            proof {
                reveal_strlit("tag");
            }
            let mut name = String::from_str("tag");
            push_decimal(&mut name, i);
            name
        };
        tags.push(SerTag { id: SerId::new(i + 1) });
        templates.push(SerTemplate { id: SerId::new(i + 1), name });
        i = i + 1;
    }
    let mut tasks: Vec<SerTask> = Vec::new();
    let mut x: usize = 0;
    while x < count
        invariant
            n == count / 4 + 1,
            tags@.len() == n,
            forall|k: int| 0 <= k < n ==> (#[trigger] tags@[k]).id@ == k + 1,
            x <= count,
            tasks@.len() == x,
            forall|y: int|
                0 <= y < x ==> (#[trigger] tasks@[y]).summary@ == decimal((y + 1) as nat)
                    && tasks@[y].tags@.len() == fixture_tag_indices(y as nat).len() && forall|j: int|
                    0 <= j < tasks@[y].tags@.len() ==> (#[trigger] tasks@[y].tags@[j]).id@
                        == fixture_tag_indices(y as nat)[j] + 1,
        decreases count - x,
    {
        let ghost want = fixture_tag_indices(x as nat);
        let mut task_tags: Vec<SerTag> = Vec::new();
        if x % 2 == 1 {
            task_tags.push(tags[0]);
        }
        if x >= 4 {
            task_tags.push(tags[x / 4]);
        }
        let ghost p = task_tags@.len();
        proof {
            assert(forall|j: int| 0 <= j < p ==> (#[trigger] task_tags@[j]).id@ == want[j] + 1);
        }
        if x >= 8 && x % 4 >= 2 {
            let mut k: usize = 1;
            while k < x / 4
                invariant
                    n == count / 4 + 1,
                    x < count,
                    tags@.len() == n,
                    forall|m: int| 0 <= m < n ==> (#[trigger] tags@[m]).id@ == m + 1,
                    want == fixture_tag_indices(x as nat),
                    x >= 8 && x % 4 >= 2,
                    1 <= k <= x / 4,
                    task_tags@.len() == p + k - 1,
                    p == want.len() - (x / 4 - 1),
                    forall|j: int| 0 <= j < task_tags@.len() ==> (#[trigger] task_tags@[j]).id@ == want[j] + 1,
                decreases x / 4 - k,
            {
                task_tags.push(tags[k]);
                proof {
                    assert(want[p + k - 1] == k);
                }
                k = k + 1;
            }
        }
        tasks.push(SerTask { summary: decimal_string(x + 1), tags: task_tags });
        x = x + 1;
    }
    (tags, templates, tasks)
}

} // verus!
