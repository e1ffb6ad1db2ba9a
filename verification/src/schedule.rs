//! Scheduling tasks on the triggers of a polyrhythm.
use crate::beat::{fits_i64, Beat, FULL_LEVEL, TICKS_PER_BEAT};
use crate::groove::{periods_lcm, spec_groove_point};
use crate::cycle::RhythmicCycle;
use crate::decimal::{
    decimal_digits, is_digit, lemma_decimal_digits_distinct, lemma_decimal_digits_read_back,
    push_decimal,
};
use crate::polyrhythm::{all_listable, Polyrhythm};
use crate::seq_facts::{count_where, lemma_ordered_listing_unique, strictly_ordered};
use vstd::arithmetic::div_mod::{
    lemma_fundamental_div_mod, lemma_fundamental_div_mod_converse, lemma_mod_bound,
};
use vstd::prelude::*;
use vstd::string::StringExecFns;

verus! {

/// A scheduled task in the polyrhythmic framework.
#[derive(Debug, Clone)]
pub struct ScheduledTask {
    /// Task identifier.
    pub id: String,
    /// Name of the cycle whose trigger it belongs to.
    pub cycle_name: String,
    /// When it is due.
    pub scheduled_beat: Beat,
    /// Task priority in millionths (higher = more important; `FULL_LEVEL` is 1.0).
    pub priority: u64,
    /// Whether it has been carried out.
    pub completed: bool,
}

/// What a scheduled task holds, as mathematical values.
pub struct TaskView {
    pub id: Seq<char>,
    pub cycle_name: Seq<char>,
    pub scheduled_beat: Beat,
    pub priority: u64,
    pub completed: bool,
}

impl View for ScheduledTask {
    type V = TaskView;

    open spec fn view(&self) -> TaskView {
        TaskView {
            id: self.id@,
            cycle_name: self.cycle_name@,
            scheduled_beat: self.scheduled_beat,
            priority: self.priority,
            completed: self.completed,
        }
    }
}

impl ScheduledTask {
    /// A new, not yet completed task with full priority.
    pub fn new(id: &str, cycle_name: &str, beat: Beat) -> (r: ScheduledTask)
        ensures
            r@ == (TaskView {
                id: id@,
                cycle_name: cycle_name@,
                scheduled_beat: beat,
                priority: FULL_LEVEL,
                completed: false,
            }),
    {
        ScheduledTask {
            id: id.to_owned(),
            cycle_name: cycle_name.to_owned(),
            scheduled_beat: beat,
            priority: FULL_LEVEL,
            completed: false,
        }
    }

    /// Set the priority (in millionths).
    pub fn with_priority(self, p: u64) -> (r: ScheduledTask)
        ensures
            r@ == (TaskView { priority: p, ..self@ }),
    {
        let mut t = self;
        t.priority = p;
        t
    }
}

/// The task names assigned to the cycles of one name.
#[derive(Debug, Clone)]
pub struct TaskTemplates {
    /// Name of the cycle(s) the tasks run on.
    pub cycle_name: String,
    /// Task names, in the order they were assigned.
    pub task_names: Vec<String>,
}

/// The strings of a vector, as character sequences.
pub open spec fn strings_view(v: Seq<String>) -> Seq<Seq<char>> {
    v.map_values(|s: String| s@)
}

/// Entry `i` holds the task names of cycle name `name`.
pub open spec fn entry_for(entries: Seq<TaskTemplates>, name: Seq<char>, i: int) -> bool {
    0 <= i < entries.len() && entries[i].cycle_name@ == name
}

/// No two entries share a cycle name.
pub open spec fn names_distinct(entries: Seq<TaskTemplates>) -> bool {
    forall|i: int, j: int|
        0 <= i < j < entries.len() ==> (#[trigger] entries[i]).cycle_name@ != (#[trigger] entries[j]).cycle_name@
}

/// The assignment of task names to cycle names that the entries hold.
pub open spec fn template_map(entries: Seq<TaskTemplates>) -> Map<Seq<char>, Seq<Seq<char>>> {
    Map::new(
        |name: Seq<char>| exists|i: int| entry_for(entries, name, i),
        |name: Seq<char>| strings_view(entries[choose|i: int| entry_for(entries, name, i)].task_names@),
    )
}

/// The task names assigned to `name` (none when the name has no entry).
pub open spec fn assigned_to(m: Map<Seq<char>, Seq<Seq<char>>>, name: Seq<char>) -> Seq<Seq<char>> {
    if m.dom().contains(name) {
        m[name]
    } else {
        Seq::empty()
    }
}

/// With distinct names, entry `i` for `name` is what the map holds for `name`.
proof fn lemma_entry_is_mapped(entries: Seq<TaskTemplates>, name: Seq<char>, i: int)
    requires
        names_distinct(entries),
        entry_for(entries, name, i),
    ensures
        template_map(entries).dom().contains(name),
        template_map(entries)[name] == strings_view(entries[i].task_names@),
{
    let j = choose|j: int| entry_for(entries, name, j);
    assert(entry_for(entries, name, j));
    if i < j {
        assert(entries[i].cycle_name@ != entries[j].cycle_name@);
    } else if j < i {
        assert(entries[j].cycle_name@ != entries[i].cycle_name@);
    }
}

/// Find the entry for `name`, if there is one.
fn find_entry(entries: &Vec<TaskTemplates>, name: &String) -> (r: Option<usize>)
    requires
        names_distinct(entries@),
    ensures
        r matches Some(i) ==> entry_for(entries@, name@, i as int),
        r is None ==> !template_map(entries@).dom().contains(name@),
{
    let mut i: usize = 0;
    while i < entries.len()
        invariant
            0 <= i <= entries@.len(),
            forall|j: int| 0 <= j < i ==> !entry_for(entries@, name@, j),
        decreases entries@.len() - i,
    {
        if entries[i].cycle_name == *name {
            return Some(i);
        }
        i += 1;
    }
    None
}

/// A polyrhythmic scheduler: assigns tasks to cycles and generates schedules.
#[derive(Debug, Clone)]
pub struct PolyrhythmicScheduler {
    /// The polyrhythm definition.
    pub polyrhythm: Polyrhythm,
    /// Task names per cycle name; no two entries share a cycle name.
    pub task_templates: Vec<TaskTemplates>,
}

impl PolyrhythmicScheduler {
    /// No two template entries share a cycle name.
    pub open spec fn well_formed(&self) -> bool {
        names_distinct(self.task_templates@)
    }

    /// The task names assigned to each cycle name.
    pub open spec fn templates(&self) -> Map<Seq<char>, Seq<Seq<char>>> {
        template_map(self.task_templates@)
    }

    /// Create a scheduler for a given polyrhythm, with no tasks assigned.
    pub fn new(polyrhythm: Polyrhythm) -> (r: PolyrhythmicScheduler)
        ensures
            r.well_formed(),
            r.polyrhythm == polyrhythm,
            r.templates() == Map::<Seq<char>, Seq<Seq<char>>>::empty(),
    {
        let r = PolyrhythmicScheduler { polyrhythm, task_templates: Vec::new() };
        assert(r.templates() =~= Map::<Seq<char>, Seq<Seq<char>>>::empty());
        r
    }

    /// Assign a task to the cycles of a name: the task name is added after the names
    /// already assigned to it.
    pub fn assign_task(&mut self, cycle_name: &str, task_name: &str)
        requires
            old(self).well_formed(),
        ensures
            final(self).well_formed(),
            final(self).polyrhythm == old(self).polyrhythm,
            final(self).templates() == old(self).templates().insert(
                cycle_name@,
                assigned_to(old(self).templates(), cycle_name@).push(task_name@),
            ),
    {
        let name = cycle_name.to_owned();
        let task = task_name.to_owned();
        let ghost old_entries = self.task_templates@;
        let ghost old_map = template_map(old_entries);
        match find_entry(&self.task_templates, &name) {
            Some(i) => {
                proof {
                    lemma_entry_is_mapped(old_entries, name@, i as int);
                }
                let mut entry = self.task_templates.remove(i);
                entry.task_names.push(task);
                self.task_templates.insert(i, entry);
                let ghost new_entries = self.task_templates@;
                proof {
                    assert(new_entries =~= old_entries.update(i as int, entry));
                    assert(strings_view(entry.task_names@) =~= old_map[name@].push(task@));
                    assert forall|a: int, b: int| 0 <= a < b < new_entries.len() implies
                        (#[trigger] new_entries[a]).cycle_name@ != (#[trigger] new_entries[b]).cycle_name@ by {
                        assert(old_entries[a].cycle_name@ != old_entries[b].cycle_name@);
                    }
                    assert forall|n: Seq<char>| #[trigger] template_map(new_entries).dom().contains(n)
                        == old_map.dom().contains(n) by {
                        if exists|j: int| entry_for(new_entries, n, j) {
                            let j = choose|j: int| entry_for(new_entries, n, j);
                            assert(entry_for(old_entries, n, j));
                        }
                        if exists|j: int| entry_for(old_entries, n, j) {
                            let j = choose|j: int| entry_for(old_entries, n, j);
                            assert(entry_for(new_entries, n, j));
                        }
                    }
                    assert forall|n: Seq<char>| #[trigger] template_map(new_entries).dom().contains(n) implies
                        template_map(new_entries)[n] == old_map.insert(name@, old_map[name@].push(task@))[n] by {
                        let j = choose|j: int| entry_for(new_entries, n, j);
                        lemma_entry_is_mapped(new_entries, n, j);
                        if n != name@ {
                            assert(entry_for(old_entries, n, j));
                            lemma_entry_is_mapped(old_entries, n, j);
                        } else {
                            lemma_entry_is_mapped(new_entries, n, i as int);
                        }
                    }
                    assert(template_map(new_entries) =~= old_map.insert(name@, old_map[name@].push(task@)));
                }
            },
            None => {
                let mut names: Vec<String> = Vec::new();
                names.push(task);
                let entry = TaskTemplates { cycle_name: name, task_names: names };
                self.task_templates.push(entry);
                let ghost new_entries = self.task_templates@;
                proof {
                    assert(new_entries =~= old_entries.push(entry));
                    assert(strings_view(entry.task_names@) =~= seq![task@]);
                    assert(forall|j: int| !entry_for(old_entries, name@, j));
                    assert forall|a: int, b: int| 0 <= a < b < new_entries.len() implies
                        (#[trigger] new_entries[a]).cycle_name@ != (#[trigger] new_entries[b]).cycle_name@ by {
                        if b < old_entries.len() {
                            assert(old_entries[a].cycle_name@ != old_entries[b].cycle_name@);
                        } else {
                            assert(!entry_for(old_entries, name@, a));
                        }
                    }
                    let last = old_entries.len() as int;
                    assert(entry_for(new_entries, name@, last));
                    assert forall|n: Seq<char>| #[trigger] template_map(new_entries).dom().contains(n)
                        == (old_map.dom().contains(n) || n == name@) by {
                        if exists|j: int| entry_for(new_entries, n, j) {
                            let j = choose|j: int| entry_for(new_entries, n, j);
                            if j < last {
                                assert(entry_for(old_entries, n, j));
                            }
                        }
                        if exists|j: int| entry_for(old_entries, n, j) {
                            let j = choose|j: int| entry_for(old_entries, n, j);
                            assert(entry_for(new_entries, n, j));
                        }
                    }
                    assert forall|n: Seq<char>| #[trigger] template_map(new_entries).dom().contains(n) implies
                        template_map(new_entries)[n] == old_map.insert(name@, seq![task@])[n] by {
                        let j = choose|j: int| entry_for(new_entries, n, j);
                        lemma_entry_is_mapped(new_entries, n, j);
                        if n != name@ {
                            assert(j < last);
                            assert(entry_for(old_entries, n, j));
                            lemma_entry_is_mapped(old_entries, n, j);
                        } else {
                            lemma_entry_is_mapped(new_entries, n, last);
                        }
                    }
                    assert(assigned_to(old_map, name@).push(task@) =~= seq![task@]);
                    assert(template_map(new_entries) =~= old_map.insert(name@, seq![task@]));
                }
            },
        }
    }
}

/// The tasks of a sequence, as mathematical values.
pub open spec fn tasks_view(v: Seq<ScheduledTask>) -> Seq<TaskView> {
    v.map_values(|t: ScheduledTask| t@)
}

/// The identifier prefix of tasks on cycles without assigned task names.
pub open spec fn default_prefix() -> Seq<char> {
    seq!['t', 'a', 's', 'k', '-']
}

/// The `counter`-th generated task, for task name `task_name` on cycle `c` at `beat`:
/// identified as `<task name>-<counter>`, with the cycle's velocity at that beat as priority.
pub open spec fn named_task(c: RhythmicCycle, task_name: Seq<char>, beat: Beat, counter: int) -> TaskView {
    TaskView {
        id: task_name + seq!['-'] + decimal_digits(counter as nat),
        cycle_name: c.name@,
        scheduled_beat: beat,
        priority: c.spec_velocity_at(beat),
        completed: false,
    }
}

/// The `counter`-th generated task, on a cycle without assigned task names:
/// identified as `task-<counter>`, with full priority.
pub open spec fn default_task(c: RhythmicCycle, beat: Beat, counter: int) -> TaskView {
    TaskView {
        id: default_prefix() + decimal_digits(counter as nat),
        cycle_name: c.name@,
        scheduled_beat: beat,
        priority: FULL_LEVEL,
        completed: false,
    }
}

/// The tasks generated for one cycle, numbered from `base + 1`: for each listed trigger,
/// one task per task name assigned to the cycle's name (in assignment order), or a single
/// default task when its name has none assigned.
pub open spec fn cycle_tasks(
    c: RhythmicCycle,
    templates: Map<Seq<char>, Seq<Seq<char>>>,
    max_beat: Beat,
    base: int,
) -> Seq<TaskView> {
    let beats = c.trigger_list(max_beat);
    if templates.dom().contains(c.name@) {
        let names = templates[c.name@];
        let m = names.len() as int;
        Seq::new(
            beats.len() * names.len(),
            |k: int| named_task(c, names[k % m], beats[k / m], base + k + 1),
        )
    } else {
        Seq::new(beats.len(), |k: int| default_task(c, beats[k], base + k + 1))
    }
}

/// All generated tasks, cycle by cycle, numbered consecutively from 1.
pub open spec fn generated_tasks(
    cycles: Seq<RhythmicCycle>,
    templates: Map<Seq<char>, Seq<Seq<char>>>,
    max_beat: Beat,
) -> Seq<TaskView>
    decreases cycles.len(),
{
    if cycles.len() == 0 {
        Seq::empty()
    } else {
        let before = generated_tasks(cycles.drop_last(), templates, max_beat);
        before + cycle_tasks(cycles.last(), templates, max_beat, before.len() as int)
    }
}

/// How many tasks a cycle gets per trigger: one per assigned task name, or one default task.
pub open spec fn tasks_per_trigger(c: RhythmicCycle, templates: Map<Seq<char>, Seq<Seq<char>>>) -> nat {
    if templates.dom().contains(c.name@) {
        templates[c.name@].len()
    } else {
        1
    }
}

/// The number of tasks scheduled up to `max_beat`: over all cycles, listed triggers times
/// tasks per trigger.
pub open spec fn schedule_size(
    cycles: Seq<RhythmicCycle>,
    templates: Map<Seq<char>, Seq<Seq<char>>>,
    max_beat: Beat,
) -> nat
    decreases cycles.len(),
{
    if cycles.len() == 0 {
        0
    } else {
        schedule_size(cycles.drop_last(), templates, max_beat) + cycles.last().trigger_count(max_beat)
            * tasks_per_trigger(cycles.last(), templates)
    }
}

/// The generated tasks number `schedule_size`.
pub proof fn lemma_generated_size(
    cycles: Seq<RhythmicCycle>,
    templates: Map<Seq<char>, Seq<Seq<char>>>,
    max_beat: Beat,
)
    ensures
        generated_tasks(cycles, templates, max_beat).len() == schedule_size(cycles, templates, max_beat),
    decreases cycles.len(),
{
    if cycles.len() > 0 {
        lemma_generated_size(cycles.drop_last(), templates, max_beat);
        let c = cycles.last();
        let before = generated_tasks(cycles.drop_last(), templates, max_beat);
        let ct = cycle_tasks(c, templates, max_beat, before.len() as int);
        if templates.dom().contains(c.name@) {
            assert(ct.len() == c.trigger_list(max_beat).len() * templates[c.name@].len());
        } else {
            assert(ct.len() == c.trigger_list(max_beat).len());
        }
        assert(ct.len() == c.trigger_count(max_beat) * tasks_per_trigger(c, templates));
    }
}

/// The task at position `q` of the generated tasks carries the number `q + 1`: it belongs to
/// one of the cycles, falls on one of that cycle's listed triggers and is not completed; on a
/// cycle with assigned task names it is `<one of those names>-<q + 1>` with the cycle's
/// velocity at its beat as priority, otherwise `task-<q + 1>` with full priority.
pub proof fn lemma_generated_numbering(
    cycles: Seq<RhythmicCycle>,
    templates: Map<Seq<char>, Seq<Seq<char>>>,
    max_beat: Beat,
    q: int,
)
    requires
        0 <= q < generated_tasks(cycles, templates, max_beat).len(),
    ensures
        ({
            let t = generated_tasks(cycles, templates, max_beat)[q];
            &&& !t.completed
            &&& exists|i: int|
                #![trigger cycles[i]]
                0 <= i < cycles.len() && t.cycle_name == cycles[i].name@ && (exists|b: int|
                    0 <= b < cycles[i].trigger_list(max_beat).len() && t.scheduled_beat
                        == cycles[i].trigger_list(max_beat)[b]) && if templates.dom().contains(
                    cycles[i].name@,
                ) {
                    &&& exists|j: int|
                        0 <= j < templates[cycles[i].name@].len() && t.id
                            == templates[cycles[i].name@][j] + seq!['-'] + decimal_digits(
                            (q + 1) as nat,
                        )
                    &&& t.priority == cycles[i].spec_velocity_at(t.scheduled_beat)
                } else {
                    &&& t.id == default_prefix() + decimal_digits((q + 1) as nat)
                    &&& t.priority == FULL_LEVEL
                }
        }),
    decreases cycles.len(),
{
    let before = generated_tasks(cycles.drop_last(), templates, max_beat);
    let g = generated_tasks(cycles, templates, max_beat);
    let t = g[q];
    let i = cycles.len() - 1;
    if q < before.len() {
        lemma_generated_numbering(cycles.drop_last(), templates, max_beat, q);
        let i0 = choose|i0: int|
            #![trigger cycles.drop_last()[i0]]
            0 <= i0 < cycles.drop_last().len() && t.cycle_name == cycles.drop_last()[i0].name@
                && (exists|b: int|
                0 <= b < cycles.drop_last()[i0].trigger_list(max_beat).len() && t.scheduled_beat
                    == cycles.drop_last()[i0].trigger_list(max_beat)[b]) && if templates.dom().contains(
                cycles.drop_last()[i0].name@,
            ) {
                &&& exists|j: int|
                    0 <= j < templates[cycles.drop_last()[i0].name@].len() && t.id
                        == templates[cycles.drop_last()[i0].name@][j] + seq!['-'] + decimal_digits(
                        (q + 1) as nat,
                    )
                &&& t.priority == cycles.drop_last()[i0].spec_velocity_at(t.scheduled_beat)
            } else {
                &&& t.id == default_prefix() + decimal_digits((q + 1) as nat)
                &&& t.priority == FULL_LEVEL
            };
        assert(cycles.drop_last()[i0] == cycles[i0]);
    } else {
        let c = cycles.last();
        assert(c == cycles[i]);
        let k = q - before.len();
        let beats = c.trigger_list(max_beat);
        assert(t == cycle_tasks(c, templates, max_beat, before.len() as int)[k]);
        if templates.dom().contains(c.name@) {
            let names = templates[c.name@];
            let m = names.len() as int;
            let nb = beats.len() as int;
            assert(m > 0) by (nonlinear_arith)
                requires
                    0 <= k < nb * m,
                    nb >= 0,
            ;
            lemma_fundamental_div_mod(k, m);
            lemma_mod_bound(k, m);
            assert(0 <= k / m < nb) by (nonlinear_arith)
                requires
                    0 <= k < nb * m,
                    m > 0,
                    k == m * (k / m) + k % m,
                    0 <= k % m < m,
            ;
            assert(t.scheduled_beat == beats[k / m]);
            assert(t.id == names[k % m] + seq!['-'] + decimal_digits((q + 1) as nat));
        } else {
            assert(t.scheduled_beat == beats[k]);
        }
    }
}

/// The identifier of the task at position `q` of the generated tasks is a name, a `-`, and
/// the decimal digits of `q + 1`.
proof fn lemma_generated_id_form(
    cycles: Seq<RhythmicCycle>,
    templates: Map<Seq<char>, Seq<Seq<char>>>,
    max_beat: Beat,
    q: int,
) -> (x: Seq<char>)
    requires
        0 <= q < generated_tasks(cycles, templates, max_beat).len(),
    ensures
        generated_tasks(cycles, templates, max_beat)[q].id == x + seq!['-'] + decimal_digits((q + 1) as nat),
{
    lemma_generated_numbering(cycles, templates, max_beat, q);
    let t = generated_tasks(cycles, templates, max_beat)[q];
    let i = choose|i: int|
        #![trigger cycles[i]]
        0 <= i < cycles.len() && t.cycle_name == cycles[i].name@ && (exists|b: int|
            0 <= b < cycles[i].trigger_list(max_beat).len() && t.scheduled_beat
                == cycles[i].trigger_list(max_beat)[b]) && if templates.dom().contains(
            cycles[i].name@,
        ) {
            &&& exists|j: int|
                0 <= j < templates[cycles[i].name@].len() && t.id
                    == templates[cycles[i].name@][j] + seq!['-'] + decimal_digits(
                    (q + 1) as nat,
                )
            &&& t.priority == cycles[i].spec_velocity_at(t.scheduled_beat)
        } else {
            &&& t.id == default_prefix() + decimal_digits((q + 1) as nat)
            &&& t.priority == FULL_LEVEL
        };
    if templates.dom().contains(cycles[i].name@) {
        let j = choose|j: int|
            0 <= j < templates[cycles[i].name@].len() && t.id == templates[cycles[i].name@][j] + seq!['-']
                + decimal_digits((q + 1) as nat);
        templates[cycles[i].name@][j]
    } else {
        let x = seq!['t', 'a', 's', 'k'];
        assert(default_prefix() + decimal_digits((q + 1) as nat) =~= x + seq!['-'] + decimal_digits(
            (q + 1) as nat,
        ));
        x
    }
}

/// A name, a `-` and a string of digits determine the digits: the part after the last `-`.
proof fn lemma_digit_suffix(x1: Seq<char>, d1: Seq<char>, x2: Seq<char>, d2: Seq<char>)
    requires
        x1 + seq!['-'] + d1 == x2 + seq!['-'] + d2,
        forall|i: int| 0 <= i < d1.len() ==> is_digit(#[trigger] d1[i]),
        forall|i: int| 0 <= i < d2.len() ==> is_digit(#[trigger] d2[i]),
    ensures
        d1 == d2,
{
    let s = x1 + seq!['-'] + d1;
    let s2 = x2 + seq!['-'] + d2;
    assert(s.len() == s2.len());
    if d1.len() < d2.len() {
        let i = s.len() - d1.len() - 1;
        assert(s[i] == '-');
        assert(s2[i] == d2[i - (s.len() - d2.len())]);
        assert(is_digit(d2[i - (s.len() - d2.len())]));
    } else if d2.len() < d1.len() {
        let i = s.len() - d2.len() - 1;
        assert(s2[i] == '-');
        assert(s[i] == d1[i - (s.len() - d1.len())]);
        assert(is_digit(d1[i - (s.len() - d1.len())]));
    } else {
        assert forall|k: int| 0 <= k < d1.len() implies d1[k] == d2[k] by {
            assert(s[s.len() - d1.len() + k] == d1[k]);
            assert(s2[s.len() - d1.len() + k] == d2[k]);
        }
        assert(d1 =~= d2);
    }
}

/// No two generated tasks share an identifier.
pub proof fn lemma_generated_ids_distinct(
    cycles: Seq<RhythmicCycle>,
    templates: Map<Seq<char>, Seq<Seq<char>>>,
    max_beat: Beat,
    p: int,
    q: int,
)
    requires
        0 <= p < q < generated_tasks(cycles, templates, max_beat).len(),
    ensures
        generated_tasks(cycles, templates, max_beat)[p].id != generated_tasks(cycles, templates, max_beat)[q].id,
{
    let x1 = lemma_generated_id_form(cycles, templates, max_beat, p);
    let x2 = lemma_generated_id_form(cycles, templates, max_beat, q);
    lemma_decimal_digits_read_back((p + 1) as nat);
    lemma_decimal_digits_read_back((q + 1) as nat);
    if generated_tasks(cycles, templates, max_beat)[p].id == generated_tasks(cycles, templates, max_beat)[q].id {
        lemma_digit_suffix(x1, decimal_digits((p + 1) as nat), x2, decimal_digits((q + 1) as nat));
        lemma_decimal_digits_distinct((p + 1) as nat, (q + 1) as nat);
    }
}

/// Schedule order of generated tasks `p` and `q`: earlier beat first, ties in generation order.
pub open spec fn scheduled_before(g: Seq<TaskView>, p: int, q: int) -> bool {
    g[p].scheduled_beat.0 < g[q].scheduled_beat.0 || (g[p].scheduled_beat == g[q].scheduled_beat
        && p < q)
}

/// Position `p` occurs in `perm`.
pub open spec fn lists_position(perm: Seq<int>, p: int) -> bool {
    exists|k: int| 0 <= k < perm.len() && perm[k] == p
}

/// `perm` lists every position of `g` once, in schedule order.
pub open spec fn is_schedule_order(g: Seq<TaskView>, perm: Seq<int>) -> bool {
    &&& perm.len() == g.len()
    &&& forall|k: int| 0 <= k < perm.len() ==> 0 <= #[trigger] perm[k] < g.len()
    &&& forall|p: int| 0 <= p < g.len() ==> #[trigger] lists_position(perm, p)
    &&& forall|k: int, l: int|
        0 <= k < l < perm.len() ==> scheduled_before(g, #[trigger] perm[k], #[trigger] perm[l])
}

/// `s` is `g` sorted by beat, tasks on the same beat kept in generation order.
pub open spec fn is_schedule_of(g: Seq<TaskView>, s: Seq<TaskView>) -> bool {
    exists|perm: Seq<int>|
        is_schedule_order(g, perm) && s.len() == g.len() && forall|k: int|
            0 <= k < s.len() ==> #[trigger] s[k] == g[perm[k]]
}

proof fn lemma_generated_prefix_len(
    cycles: Seq<RhythmicCycle>,
    templates: Map<Seq<char>, Seq<Seq<char>>>,
    max_beat: Beat,
    i: int,
)
    requires
        0 <= i <= cycles.len(),
    ensures
        generated_tasks(cycles.take(i), templates, max_beat).len() <= generated_tasks(
            cycles,
            templates,
            max_beat,
        ).len(),
    decreases cycles.len(),
{
    if i == cycles.len() {
        assert(cycles.take(i) =~= cycles);
    } else {
        assert(cycles.take(i) =~= cycles.drop_last().take(i));
        lemma_generated_prefix_len(cycles.drop_last(), templates, max_beat, i);
    }
}

/// The position of entry `kt` for beat `kb` among `m` entries per beat.
proof fn lemma_grid_position(kb: int, kt: int, m: int, nb: int)
    requires
        0 <= kb < nb,
        0 <= kt < m,
    ensures
        (kb * m + kt) / m == kb,
        (kb * m + kt) % m == kt,
        0 <= kb * m + kt < nb * m,
        kb * m + kt + 1 <= nb * m,
        (kb + 1) * m == kb * m + m,
{
    lemma_fundamental_div_mod_converse(kb * m + kt, m, kb, kt);
    assert(0 <= kb * m + kt < nb * m && (kb + 1) * m == kb * m + m) by (nonlinear_arith)
        requires
            0 <= kb < nb,
            0 <= kt < m,
    ;
}

impl PolyrhythmicScheduler {
    /// The tasks generated up to `max_beat`, before ordering by beat.
    pub open spec fn generated(&self, max_beat: Beat) -> Seq<TaskView> {
        generated_tasks(self.polyrhythm.cycles@, self.templates(), max_beat)
    }

    /// The tasks up to `max_beat` in generation order: cycle by cycle, trigger by trigger,
    /// task name by task name, numbered from 1.
    fn generate_in_order(&self, max_beat: Beat) -> (r: Vec<ScheduledTask>)
        requires
            self.well_formed(),
            all_listable(self.polyrhythm.cycles@, max_beat),
            self.generated(max_beat).len() <= u64::MAX,
        ensures
            tasks_view(r@) == self.generated(max_beat),
    {
        let cycles = &self.polyrhythm.cycles;
        let ghost tm = self.templates();
        let mut out: Vec<ScheduledTask> = Vec::new();
        let mut counter: u64 = 0;
        let mut i: usize = 0;
        while i < cycles.len()
            invariant
                cycles == &self.polyrhythm.cycles,
                tm == self.templates(),
                self.well_formed(),
                all_listable(cycles@, max_beat),
                generated_tasks(cycles@, tm, max_beat).len() <= u64::MAX,
                0 <= i <= cycles@.len(),
                tasks_view(out@) == generated_tasks(cycles@.take(i as int), tm, max_beat),
                counter == out@.len(),
            decreases cycles@.len() - i,
        {
            let cycle = &cycles[i];
            let ghost prev = tasks_view(out@);
            let ghost ct = cycle_tasks(*cycle, tm, max_beat, prev.len() as int);
            proof {
                assert(cycles@.take(i + 1).drop_last() =~= cycles@.take(i as int));
                assert(cycles@.take(i + 1).last() == *cycle);
                assert(generated_tasks(cycles@.take(i + 1), tm, max_beat) == prev + ct);
                lemma_generated_prefix_len(cycles@, tm, max_beat, i + 1);
                assert(cycle.listable(max_beat));
            }
            let beats = cycle.triggers_up_to(max_beat);
            match find_entry(&self.task_templates, &cycle.name) {
                Some(e) => {
                    let names = &self.task_templates[e].task_names;
                    proof {
                        lemma_entry_is_mapped(self.task_templates@, cycle.name@, e as int);
                    }
                    let ghost snames = strings_view(names@);
                    let m = names.len();
                    let mut kb: usize = 0;
                    while kb < beats.len()
                        invariant
                            tm.dom().contains(cycle.name@),
                            tm[cycle.name@] == snames,
                            snames == strings_view(names@),
                            m == names@.len(),
                            beats@ == cycle.trigger_list(max_beat),
                            ct == cycle_tasks(*cycle, tm, max_beat, prev.len() as int),
                            prev.len() + ct.len() <= u64::MAX,
                            0 <= kb <= beats@.len(),
                            tasks_view(out@) == prev + ct.take(kb * m),
                            counter == out@.len(),
                        decreases beats@.len() - kb,
                    {
                        let beat = beats[kb];
                        let mut kt: usize = 0;
                        while kt < m
                            invariant
                                tm.dom().contains(cycle.name@),
                                tm[cycle.name@] == snames,
                                snames == strings_view(names@),
                                m == names@.len(),
                                beats@ == cycle.trigger_list(max_beat),
                                beat == beats@[kb as int],
                                ct == cycle_tasks(*cycle, tm, max_beat, prev.len() as int),
                                prev.len() + ct.len() <= u64::MAX,
                                0 <= kb < beats@.len(),
                                0 <= kt <= m,
                                tasks_view(out@) == prev + ct.take(kb * m + kt),
                                counter == out@.len(),
                            decreases m - kt,
                        {
                            let ghost pos = kb * m + kt;
                            proof {
                                lemma_grid_position(kb as int, kt as int, m as int, beats@.len() as int);
                                assert(ct.len() == beats@.len() * m);
                                assert(tasks_view(out@).len() == out@.len());
                                assert(ct.take(pos).len() == pos);
                            }
                            counter += 1;
                            let mut id = names[kt].clone();
                            proof {
                                reveal_strlit("-");
                            }
                            id.append("-");
                            push_decimal(&mut id, counter);
                            let velocity = cycle.velocity_at(beat);
                            let task = ScheduledTask::new(id.as_str(), cycle.name.as_str(), beat).with_priority(velocity);
                            proof {
                                assert(counter == prev.len() + pos + 1);
                                assert(task@.id == named_task(*cycle, snames[pos % (m as int)], beat, prev.len() + pos + 1).id);
                                assert(beats@[pos / (m as int)] == beat);
                                assert(snames[pos % (m as int)] == names@[kt as int]@);
                                assert(task@ == named_task(*cycle, snames[pos % (m as int)], beat, prev.len() + pos + 1));
                                assert(task@ == ct[pos]);
                                assert(ct.take(pos + 1) =~= ct.take(pos).push(ct[pos]));
                            }
                            let ghost before = out@;
                            out.push(task);
                            proof {
                                assert(tasks_view(out@) =~= tasks_view(before).push(task@));
                                assert(tasks_view(out@) =~= prev + ct.take(pos + 1));
                            }
                            kt += 1;
                        }
                        proof {
                            assert((kb + 1) * m == kb * m + m) by (nonlinear_arith);
                        }
                        kb += 1;
                    }
                    proof {
                        assert(ct.len() == beats@.len() * m);
                        assert(ct.take(kb * m) =~= ct);
                    }
                },
                None => {
                    let mut kb: usize = 0;
                    while kb < beats.len()
                        invariant
                            !tm.dom().contains(cycle.name@),
                            beats@ == cycle.trigger_list(max_beat),
                            ct == cycle_tasks(*cycle, tm, max_beat, prev.len() as int),
                            prev.len() + ct.len() <= u64::MAX,
                            0 <= kb <= beats@.len(),
                            tasks_view(out@) == prev + ct.take(kb as int),
                            counter == out@.len(),
                        decreases beats@.len() - kb,
                    {
                        let beat = beats[kb];
                        proof {
                            assert(tasks_view(out@).len() == out@.len());
                            assert(ct.take(kb as int).len() == kb);
                        }
                        counter += 1;
                        let mut id = "task-".to_owned();
                        proof {
                            reveal_strlit("task-");
                            assert(id@ == default_prefix());
                        }
                        push_decimal(&mut id, counter);
                        let task = ScheduledTask::new(id.as_str(), cycle.name.as_str(), beat);
                        proof {
                            assert(counter == prev.len() + kb + 1);
                            assert(task@ == default_task(*cycle, beat, prev.len() + kb + 1));
                            assert(task@ == ct[kb as int]);
                            assert(ct.take(kb + 1) =~= ct.take(kb as int).push(ct[kb as int]));
                        }
                        let ghost before = out@;
                        out.push(task);
                        proof {
                            assert(tasks_view(out@) =~= tasks_view(before).push(task@));
                        }
                        kb += 1;
                    }
                    proof {
                        assert(ct.take(kb as int) =~= ct);
                    }
                },
            }
            i += 1;
        }
        proof {
            assert(cycles@.take(i as int) =~= cycles@);
        }
        out
    }
}

/// The task is scheduled at `beat`.
pub open spec fn on_beat(beat: Beat) -> spec_fn(TaskView) -> bool {
    |t: TaskView| t.scheduled_beat == beat
}

/// Taking the first task off the remaining part `g[n..]` of a task list leaves `g[n + 1..]`,
/// and the task taken is `g[n]`.
proof fn lemma_take_front(g: Seq<TaskView>, before: Seq<ScheduledTask>, after: Seq<ScheduledTask>, n: int)
    requires
        0 <= n < g.len(),
        tasks_view(before) == g.subrange(n, g.len() as int),
        after == before.remove(0),
    ensures
        before[0]@ == g[n],
        tasks_view(after) == g.subrange(n + 1, g.len() as int),
{
    assert(tasks_view(before).len() == before.len());
    assert(tasks_view(before)[0] == g[n]);
    assert(tasks_view(after) =~= g.subrange(n + 1, g.len() as int)) by {
        assert forall|q: int| 0 <= q < after.len() implies tasks_view(after)[q] == g.subrange(
            n + 1,
            g.len() as int,
        )[q] by {
            assert(after[q] == before[q + 1]);
            assert(tasks_view(before)[q + 1] == g[n + 1 + q]);
        }
    }
}

/// The task falls on `beat`, whatever else it holds.
pub open spec fn falls_on(beat: Beat) -> spec_fn(TaskView) -> bool {
    |t: TaskView| t.scheduled_beat == beat
}

/// The tasks kept for `beat` are exactly the tasks whose scheduled beat is `beat`, whatever
/// their priority, identifier or cycle: every such task is kept, every kept task is one of
/// them, taken from the tasks, and there are as many kept as there are such tasks.
pub proof fn lemma_tasks_on_beat(g: Seq<TaskView>, beat: Beat)
    ensures
        forall|i: int|
            0 <= i < g.len() && g[i].scheduled_beat == beat ==> #[trigger] g.filter(on_beat(beat)).contains(g[i]),
        forall|k: int|
            0 <= k < g.filter(on_beat(beat)).len() ==> (#[trigger] g.filter(on_beat(beat))[k]).scheduled_beat == beat
                && g.contains(g.filter(on_beat(beat))[k]),
        g.filter(on_beat(beat)).len() == count_where(g, falls_on(beat)),
    decreases g.len(),
{
    broadcast use vstd::seq_lib::group_filter_ensures;
    let pred = on_beat(beat);
    assert forall|i: int| 0 <= i < g.len() && g[i].scheduled_beat == beat implies #[trigger] g.filter(pred).contains(g[i]) by {
        assert(pred(g[i]));
    }
    assert forall|k: int| 0 <= k < g.filter(pred).len() implies (#[trigger] g.filter(pred)[k]).scheduled_beat == beat
        && g.contains(g.filter(pred)[k]) by {
        assert(pred(g.filter(pred)[k]));
        assert(g.filter(pred).contains(g.filter(pred)[k]));
        g.lemma_filter_contains_rev(pred, g.filter(pred)[k]);
    }
    if g.len() > 0 {
        lemma_tasks_on_beat(g.drop_last(), beat);
        assert(g.drop_last().push(g.last()) =~= g);
        g.drop_last().lemma_filter_push(g.last(), pred);
    }
}

/// Order tasks by beat, keeping tasks on the same beat in their given order.
fn sort_by_beat(tasks: Vec<ScheduledTask>) -> (r: Vec<ScheduledTask>)
    ensures
        is_schedule_of(tasks_view(tasks@), tasks_view(r@)),
        forall|k: int, l: int|
            0 <= k < l < r@.len() ==> (#[trigger] r@[k]).scheduled_beat.0 <= (#[trigger] r@[l]).scheduled_beat.0,
{
    let ghost g = tasks_view(tasks@);
    let len = tasks.len();
    let mut src = tasks;
    let mut out: Vec<ScheduledTask> = Vec::new();
    let ghost mut perm: Seq<int> = Seq::empty();
    let mut n: usize = 0;
    while n < len
        invariant
            g.len() == len,
            0 <= n <= len,
            tasks_view(src@) == g.subrange(n as int, len as int),
            out@.len() == n,
            perm.len() == n,
            forall|k: int| 0 <= k < n ==> 0 <= #[trigger] perm[k] < n,
            forall|p: int| 0 <= p < n ==> #[trigger] lists_position(perm, p),
            forall|k: int| 0 <= k < n ==> #[trigger] tasks_view(out@)[k] == g[perm[k]],
            forall|k: int, l: int| 0 <= k < l < n ==> scheduled_before(g, #[trigger] perm[k], #[trigger] perm[l]),
        decreases len - n,
    {
        proof {
            assert(tasks_view(src@).len() == src@.len());
        }
        let ghost before_src = src@;
        let t = src.remove(0);
        proof {
            lemma_take_front(g, before_src, src@, n as int);
        }
        let b = t.scheduled_beat.0;
        let mut j: usize = out.len();
        while j > 0 && out[j - 1].scheduled_beat.0 > b
            invariant
                0 <= j <= out@.len(),
                forall|m: int| j <= m < out@.len() ==> (#[trigger] out@[m]).scheduled_beat.0 > b,
            decreases j,
        {
            j -= 1;
        }
        let ghost old_out = out@;
        let ghost old_perm = perm;
        proof {
            assert forall|m: int| 0 <= m < j implies #[trigger] old_out[m].scheduled_beat.0 <= b by {
                if m < j - 1 {
                    assert(scheduled_before(g, old_perm[m], old_perm[j - 1]));
                    assert(tasks_view(old_out)[m] == g[old_perm[m]]);
                    assert(tasks_view(old_out)[j - 1] == g[old_perm[j - 1]]);
                }
            }
        }
        out.insert(j, t);
        proof {
            perm = old_perm.insert(j as int, n as int);
            old_perm.insert_ensures(j as int, n as int);
            old_out.insert_ensures(j as int, t);
            assert(t@ == g[n as int]);
            assert forall|k: int| 0 <= k < n + 1 implies #[trigger] tasks_view(out@)[k] == g[perm[k]] by {
                if k < j {
                    assert(tasks_view(old_out)[k] == g[old_perm[k]]);
                } else if k > j {
                    assert(tasks_view(old_out)[k - 1] == g[old_perm[k - 1]]);
                }
            }
            assert forall|k: int, l: int| 0 <= k < l < n + 1 implies scheduled_before(g, #[trigger] perm[k], #[trigger] perm[l]) by {
                if l < j {
                    assert(scheduled_before(g, old_perm[k], old_perm[l]));
                } else if l == j {
                    assert(tasks_view(old_out)[k] == g[old_perm[k]]);
                    assert(old_out[k].scheduled_beat.0 <= b);
                } else if k < j {
                    assert(scheduled_before(g, old_perm[k], old_perm[l - 1]));
                } else if k == j {
                    assert(tasks_view(old_out)[l - 1] == g[old_perm[l - 1]]);
                    assert(old_out[l - 1].scheduled_beat.0 > b);
                } else {
                    assert(scheduled_before(g, old_perm[k - 1], old_perm[l - 1]));
                }
            }
            assert forall|p: int| 0 <= p < n + 1 implies #[trigger] lists_position(perm, p) by {
                if p == n {
                    assert(perm[j as int] == p);
                } else {
                    assert(lists_position(old_perm, p));
                    let k = choose|k: int| 0 <= k < old_perm.len() && old_perm[k] == p;
                    if k < j {
                        assert(perm[k] == p);
                    } else {
                        assert(perm[k + 1] == p);
                    }
                }
            }
        }
        n += 1;
    }
    proof {
        assert(tasks_view(out@).len() == out@.len());
        assert forall|k: int, l: int| 0 <= k < l < out@.len() implies (#[trigger] out@[k]).scheduled_beat.0 <= (#[trigger] out@[l]).scheduled_beat.0 by {
            assert(scheduled_before(g, perm[k], perm[l]));
            assert(tasks_view(out@)[k] == g[perm[k]]);
            assert(tasks_view(out@)[l] == g[perm[l]]);
        }
        assert(is_schedule_order(g, perm));
    }
    out
}

impl PolyrhythmicScheduler {
    /// Generate the full schedule up to `max_beat`: the generated tasks ordered by beat,
    /// tasks on the same beat in generation order.
    pub fn generate_schedule(&self, max_beat: Beat) -> (r: Vec<ScheduledTask>)
        requires
            self.well_formed(),
            all_listable(self.polyrhythm.cycles@, max_beat),
            self.generated(max_beat).len() <= u64::MAX,
        ensures
            is_schedule_of(self.generated(max_beat), tasks_view(r@)),
            forall|k: int, l: int|
                0 <= k < l < r@.len() ==> (#[trigger] r@[k]).scheduled_beat.0 <= (#[trigger] r@[l]).scheduled_beat.0,
            r@.len() == schedule_size(self.polyrhythm.cycles@, self.templates(), max_beat),
    {
        let tasks = self.generate_in_order(max_beat);
        let r = sort_by_beat(tasks);
        proof {
            lemma_generated_size(self.polyrhythm.cycles@, self.templates(), max_beat);
            assert(tasks_view(r@).len() == r@.len());
        }
        r
    }

    /// The tasks scheduled at exactly `beat`, in the schedule up to `max_beat`
    /// (in generation order, which is their order in the schedule).
    pub fn tasks_at(&self, beat: Beat, max_beat: Beat) -> (r: Vec<ScheduledTask>)
        requires
            self.well_formed(),
            all_listable(self.polyrhythm.cycles@, max_beat),
            self.generated(max_beat).len() <= u64::MAX,
        ensures
            tasks_view(r@) == self.generated(max_beat).filter(on_beat(beat)),
            forall|i: int|
                0 <= i < self.generated(max_beat).len() && self.generated(max_beat)[i].scheduled_beat == beat
                    ==> #[trigger] tasks_view(r@).contains(self.generated(max_beat)[i]),
            forall|k: int| 0 <= k < r@.len() ==> (#[trigger] r@[k]).scheduled_beat == beat,
            r@.len() == count_where(self.generated(max_beat), falls_on(beat)),
    {
        let ghost g = self.generated(max_beat);
        let ghost pred = on_beat(beat);
        let mut src = self.generate_in_order(max_beat);
        let len = src.len();
        let mut out: Vec<ScheduledTask> = Vec::new();
        let mut n: usize = 0;
        while n < len
            invariant
                g.len() == len,
                pred == on_beat(beat),
                0 <= n <= len,
                tasks_view(src@) == g.subrange(n as int, len as int),
                tasks_view(out@) == g.take(n as int).filter(pred),
            decreases len - n,
        {
            proof {
                assert(tasks_view(src@).len() == src@.len());
            }
            let ghost before_src = src@;
            let t = src.remove(0);
            proof {
                lemma_take_front(g, before_src, src@, n as int);
                assert(g.take(n + 1).drop_last() =~= g.take(n as int));
                assert(g.take(n + 1).last() == t@);
                assert(g.take(n + 1).filter(pred) == if pred(t@) {
                    g.take(n as int).filter(pred).push(t@)
                } else {
                    g.take(n as int).filter(pred)
                }) by {
                    reveal(Seq::filter);
                }
            }
            let ghost before_out = out@;
            if t.scheduled_beat.0 == beat.0 {
                out.push(t);
                proof {
                    assert(tasks_view(out@) =~= tasks_view(before_out).push(t@));
                    assert(pred(t@));
                }
            } else {
                proof {
                    assert(!pred(t@));
                }
            }
            assert(tasks_view(out@) == g.take(n + 1).filter(pred));
            n += 1;
        }
        proof {
            assert(g.take(len as int) =~= g);
            lemma_tasks_on_beat(g, beat);
            assert(tasks_view(out@).len() == out@.len());
            assert forall|k: int| 0 <= k < out@.len() implies (#[trigger] out@[k]).scheduled_beat == beat by {
                assert(tasks_view(out@)[k] == out@[k]@);
            }
        }
        out
    }

    /// Schedule up to the groove point (one full cycle of the polyrhythm); nothing when
    /// the groove point is the origin.
    pub fn schedule_one_full_cycle(&self) -> (r: Vec<ScheduledTask>)
        requires
            self.well_formed(),
            fits_i64(periods_lcm(self.polyrhythm.cycles@) * TICKS_PER_BEAT),
            all_listable(self.polyrhythm.cycles@, Beat(spec_groove_point(self.polyrhythm.cycles@) as i64)),
            self.generated(Beat(spec_groove_point(self.polyrhythm.cycles@) as i64)).len() <= u64::MAX,
        ensures
            spec_groove_point(self.polyrhythm.cycles@) == 0 ==> r@.len() == 0,
            spec_groove_point(self.polyrhythm.cycles@) != 0 ==> is_schedule_of(
                self.generated(Beat(spec_groove_point(self.polyrhythm.cycles@) as i64)),
                tasks_view(r@),
            ),
    {
        let period = self.polyrhythm.full_cycle_period();
        if period.0 == 0 {
            return Vec::new();
        }
        self.generate_schedule(period)
    }
}

/// Filtering a sequence none of whose elements passes leaves nothing.
proof fn lemma_filter_none(x: Seq<TaskView>, pred: spec_fn(TaskView) -> bool)
    requires
        forall|i: int| 0 <= i < x.len() ==> !pred(#[trigger] x[i]),
    ensures
        x.filter(pred) == Seq::<TaskView>::empty(),
    decreases x.len(),
{
    reveal(Seq::filter);
    if x.len() > 0 {
        assert forall|i: int| 0 <= i < x.drop_last().len() implies !pred(#[trigger] x.drop_last()[i]) by {
            assert(x.drop_last()[i] == x[i]);
        }
        lemma_filter_none(x.drop_last(), pred);
        assert(!pred(x[x.len() - 1]));
    }
}

/// The tasks on any one beat keep their generation order in the schedule: filtering
/// the schedule by beat gives the generated tasks on that beat, in generation order.
pub proof fn lemma_schedule_keeps_order_on_beat(g: Seq<TaskView>, s: Seq<TaskView>, beat: Beat)
    requires
        is_schedule_of(g, s),
    ensures
        s.filter(on_beat(beat)) == g.filter(on_beat(beat)),
{
    let perm = choose|perm: Seq<int>|
        is_schedule_order(g, perm) && s.len() == g.len() && forall|k: int|
            0 <= k < s.len() ==> #[trigger] s[k] == g[perm[k]];
    lemma_schedule_order_filter(g, s, perm, beat);
}

proof fn lemma_schedule_order_filter(g: Seq<TaskView>, s: Seq<TaskView>, perm: Seq<int>, beat: Beat)
    requires
        is_schedule_order(g, perm),
        s.len() == g.len(),
        forall|k: int| 0 <= k < s.len() ==> #[trigger] s[k] == g[perm[k]],
    ensures
        s.filter(on_beat(beat)) == g.filter(on_beat(beat)),
    decreases g.len(),
{
    let pred = on_beat(beat);
    let n = g.len() as int;
    if n == 0 {
        assert(s =~= g);
        return;
    }
    let last = n - 1;
    assert(lists_position(perm, last));
    let j = choose|j: int| 0 <= j < perm.len() && perm[j] == last;
    let g2 = g.drop_last();
    let perm2 = perm.remove(j);
    let s2 = s.remove(j);
    perm.remove_ensures(j);
    s.remove_ensures(j);
    // positions other than j hold indices below `last`
    assert forall|k: int| 0 <= k < perm2.len() implies 0 <= #[trigger] perm2[k] < g2.len() by {
        let k0 = if k < j { k } else { k + 1 };
        assert(perm2[k] == perm[k0]);
        if k0 < j {
            assert(scheduled_before(g, perm[k0], perm[j]));
        } else {
            assert(scheduled_before(g, perm[j], perm[k0]));
        }
    }
    assert forall|p: int| 0 <= p < g2.len() implies #[trigger] lists_position(perm2, p) by {
        assert(lists_position(perm, p));
        let k = choose|k: int| 0 <= k < perm.len() && perm[k] == p;
        if k < j {
            assert(perm2[k] == p);
        } else {
            assert(k != j);
            assert(perm2[k - 1] == p);
        }
    }
    assert forall|k: int, l: int| 0 <= k < l < perm2.len() implies scheduled_before(
        g2,
        #[trigger] perm2[k],
        #[trigger] perm2[l],
    ) by {
        let k0 = if k < j { k } else { k + 1 };
        let l0 = if l < j { l } else { l + 1 };
        assert(perm2[k] == perm[k0] && perm2[l] == perm[l0]);
        assert(scheduled_before(g, perm[k0], perm[l0]));
        assert(g2[perm2[k]] == g[perm2[k]]);
        assert(g2[perm2[l]] == g[perm2[l]]);
    }
    assert forall|k: int| 0 <= k < s2.len() implies #[trigger] s2[k] == g2[perm2[k]] by {
        let k0 = if k < j { k } else { k + 1 };
        assert(s2[k] == s[k0]);
        assert(perm2[k] == perm[k0]);
        assert(g2[perm2[k]] == g[perm2[k]]);
    }
    assert(is_schedule_order(g2, perm2));
    lemma_schedule_order_filter(g2, s2, perm2, beat);
    // g's filter: g2's filter, then the last task if it is on the beat
    assert(g.filter(pred) == if pred(g[last]) {
        g2.filter(pred).push(g[last])
    } else {
        g2.filter(pred)
    }) by {
        reveal(Seq::filter);
    }
    // s splits around j
    let a = s.take(j);
    let c = s.skip(j + 1);
    assert(s =~= a + seq![s[j]] + c);
    assert(s2 =~= a + c);
    assert(s[j] == g[last]);
    Seq::filter_distributes_over_add(a + seq![s[j]], c, pred);
    Seq::filter_distributes_over_add(a, seq![s[j]], pred);
    Seq::filter_distributes_over_add(a, c, pred);
    assert(seq![s[j]].filter(pred) == if pred(s[j]) {
        seq![s[j]]
    } else {
        Seq::<TaskView>::empty()
    }) by {
        reveal(Seq::filter);
        assert(seq![s[j]].drop_last() =~= Seq::<TaskView>::empty());
        assert(Seq::<TaskView>::empty().filter(pred) == Seq::<TaskView>::empty());
        assert(seq![s[j]].last() == s[j]);
        assert(Seq::<TaskView>::empty().push(s[j]) =~= seq![s[j]]);
    }
    if pred(s[j]) {
        // nothing after j lies on the same beat
        assert forall|i: int| 0 <= i < c.len() implies !pred(#[trigger] c[i]) by {
            assert(c[i] == s[j + 1 + i]);
            assert(scheduled_before(g, perm[j], perm[j + 1 + i]));
        }
        lemma_filter_none(c, pred);
        assert(s.filter(pred) =~= s2.filter(pred).push(s[j]));
    } else {
        assert(s.filter(pred) =~= s2.filter(pred));
    }
}

/// Schedule order of positions in `g`, as a relation.
pub open spec fn schedule_order(g: Seq<TaskView>) -> spec_fn(int, int) -> bool {
    |p: int, q: int| scheduled_before(g, p, q)
}

/// The schedule of a sequence of generated tasks is unique: in particular
/// `schedule_one_full_cycle` gives what `generate_schedule` gives up to the groove point.
pub proof fn lemma_schedule_unique(g: Seq<TaskView>, s1: Seq<TaskView>, s2: Seq<TaskView>)
    requires
        is_schedule_of(g, s1),
        is_schedule_of(g, s2),
    ensures
        s1 == s2,
{
    let p1 = choose|perm: Seq<int>|
        is_schedule_order(g, perm) && s1.len() == g.len() && forall|k: int|
            0 <= k < s1.len() ==> #[trigger] s1[k] == g[perm[k]];
    let p2 = choose|perm: Seq<int>|
        is_schedule_order(g, perm) && s2.len() == g.len() && forall|k: int|
            0 <= k < s2.len() ==> #[trigger] s2[k] == g[perm[k]];
    assert forall|p: int| #[trigger] p1.contains(p) <==> p2.contains(p) by {
        if p1.contains(p) {
            let k = choose|k: int| 0 <= k < p1.len() && p1[k] == p;
            assert(0 <= p1[k] < g.len());
            assert(lists_position(p2, p));
        }
        if p2.contains(p) {
            let k = choose|k: int| 0 <= k < p2.len() && p2[k] == p;
            assert(0 <= p2[k] < g.len());
            assert(lists_position(p1, p));
        }
    }
    assert forall|x: int, y: int| #[trigger] schedule_order(g)(x, y) implies !schedule_order(g)(y, x) by {}
    assert(strictly_ordered(p1, schedule_order(g))) by {
        assert forall|k: int, l: int| 0 <= k < l < p1.len() implies schedule_order(g)(#[trigger] p1[k], #[trigger] p1[l]) by {
            assert(scheduled_before(g, p1[k], p1[l]));
        }
    }
    assert(strictly_ordered(p2, schedule_order(g))) by {
        assert forall|k: int, l: int| 0 <= k < l < p2.len() implies schedule_order(g)(#[trigger] p2[k], #[trigger] p2[l]) by {
            assert(scheduled_before(g, p2[k], p2[l]));
        }
    }
    lemma_ordered_listing_unique(p1, p2, schedule_order(g));
    assert forall|k: int| 0 <= k < s1.len() implies s1[k] == s2[k] by {
        assert(s1[k] == g[p1[k]]);
        assert(s2[k] == g[p2[k]]);
    }
    assert(s1 =~= s2);
}

} // verus!
