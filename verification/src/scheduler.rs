//! The per-worker check scheduler: the task queue, drift-free next-execution
//! times, and the merge protocols that keep the queue in step with range
//! changes and mutation notices.

use vstd::prelude::*;

use crate::regions::Region;
use crate::text::str_eq;

verus! {

/// The HTTP methods a check may use.
#[derive(Debug, Clone, Copy, PartialEq, Eq, Structural)]
pub enum Method {
    Get,
    Post,
    Put,
    Delete,
    Head,
}

impl Method {
    /// The identifier under which the method is stored and sent.
    pub open spec fn spec_identifier(self) -> Seq<char> {
        match self {
            Method::Get => "GET"@,
            Method::Post => "POST"@,
            Method::Put => "PUT"@,
            Method::Delete => "DELETE"@,
            Method::Head => "HEAD"@,
        }
    }

    /// The method a stored identifier denotes, if any.
    pub open spec fn spec_from_identifier(s: Seq<char>) -> Option<Method> {
        if s == "GET"@ {
            Some(Method::Get)
        } else if s == "POST"@ {
            Some(Method::Post)
        } else if s == "PUT"@ {
            Some(Method::Put)
        } else if s == "DELETE"@ {
            Some(Method::Delete)
        } else if s == "HEAD"@ {
            Some(Method::Head)
        } else {
            None
        }
    }

    pub fn to_identifier(self) -> (r: &'static str)
        ensures
            r@ == self.spec_identifier(),
    {
        match self {
            Method::Get => "GET",
            Method::Post => "POST",
            Method::Put => "PUT",
            Method::Delete => "DELETE",
            Method::Head => "HEAD",
        }
    }

    pub fn from_identifier(identifier: &str) -> (r: Option<Method>)
        ensures
            r == Method::spec_from_identifier(identifier@),
    {
        if str_eq(identifier, "GET") {
            Some(Method::Get)
        } else if str_eq(identifier, "POST") {
            Some(Method::Post)
        } else if str_eq(identifier, "PUT") {
            Some(Method::Put)
        } else if str_eq(identifier, "DELETE") {
            Some(Method::Delete)
        } else if str_eq(identifier, "HEAD") {
            Some(Method::Head)
        } else {
            None
        }
    }
}

/// A user-defined health check, as the scheduler sees it: one row per
/// region the check is active in.
#[derive(Debug)]
pub struct ServiceCheck {
    pub check_id: u128,
    pub region: Region,
    pub check_name: String,
    pub url: String,
    pub http_method: Method,
    pub check_frequency_seconds: i32,
    pub timeout_seconds: i32,
    pub expected_status_code: i32,
    pub request_headers: Vec<(String, String)>,
    pub request_body: Option<String>,
    pub is_enabled: bool,
    pub created_at_ms: u64,
}

/// The specification-level value of a check: the same fields, with the
/// header list abstracted to a sequence.
pub struct CheckView {
    pub check_id: u128,
    pub region: Region,
    pub check_name: String,
    pub url: String,
    pub http_method: Method,
    pub check_frequency_seconds: i32,
    pub timeout_seconds: i32,
    pub expected_status_code: i32,
    pub request_headers: Seq<(String, String)>,
    pub request_body: Option<String>,
    pub is_enabled: bool,
    pub created_at_ms: u64,
}

impl View for ServiceCheck {
    type V = CheckView;

    open spec fn view(&self) -> CheckView {
        CheckView {
            check_id: self.check_id,
            region: self.region,
            check_name: self.check_name,
            url: self.url,
            http_method: self.http_method,
            check_frequency_seconds: self.check_frequency_seconds,
            timeout_seconds: self.timeout_seconds,
            expected_status_code: self.expected_status_code,
            request_headers: self.request_headers@,
            request_body: self.request_body,
            is_enabled: self.is_enabled,
            created_at_ms: self.created_at_ms,
        }
    }
}

impl ServiceCheck {
    /// A check the scheduler can work with: its frequency is not negative.
    pub open spec fn wf(self) -> bool {
        self.check_frequency_seconds >= 0
    }

    /// Field-for-field copy; the copy has the same specification value.
    pub fn clone_check(&self) -> (r: ServiceCheck)
        ensures
            r@ == self@,
    {
        let mut headers: Vec<(String, String)> = Vec::new();
        let n = self.request_headers.len();
        let mut i: usize = 0;
        while i < n
            invariant
                n == self.request_headers@.len(),
                i <= n,
                headers@ =~= self.request_headers@.take(i as int),
            decreases n - i,
        {
            let (k, v) = &self.request_headers[i];
            headers.push((k.clone(), v.clone()));
            i += 1;
        }
        proof {
            assert(headers@ =~= self.request_headers@);
        }
        let r = ServiceCheck {
            check_id: self.check_id,
            region: self.region,
            check_name: self.check_name.clone(),
            url: self.url.clone(),
            http_method: self.http_method,
            check_frequency_seconds: self.check_frequency_seconds,
            timeout_seconds: self.timeout_seconds,
            expected_status_code: self.expected_status_code,
            request_headers: headers,
            request_body: match &self.request_body {
                Some(b) => Some(b.clone()),
                None => None,
            },
            is_enabled: self.is_enabled,
            created_at_ms: self.created_at_ms,
        };
        proof {
            assert(r@ =~= self@);
        }
        r
    }

    /// A fixed value for tests that only care about some of the fields.
    pub fn example() -> (r: ServiceCheck)
        ensures
            r.wf(),
            r.check_id == 0,
            r.region == Region::Fsn1,
            r.http_method == Method::Get,
            r.check_frequency_seconds == 60,
            r.timeout_seconds == 30,
            r.expected_status_code == 200,
            r.request_headers@.len() == 0,
            r.request_body is None,
            r.is_enabled,
            r.created_at_ms == 0,
    {
        ServiceCheck {
            check_id: 0,
            region: Region::Fsn1,
            check_name: "Example Health Check".to_owned(),
            url: "https://example.com/health".to_owned(),
            http_method: Method::Get,
            check_frequency_seconds: 60,
            timeout_seconds: 30,
            expected_status_code: 200,
            request_headers: Vec::new(),
            request_body: None,
            is_enabled: true,
            created_at_ms: 0,
        }
    }

}

/// Scheduling jitter below this bound does not make a task fall back to
/// immediate execution.
pub const SCHEDULING_TOLERANCE_MILLIS: u64 = 100;

/// Times handled by the scheduler stay below this bound (about 146
/// million years in milliseconds), which keeps every schedule computation
/// inside the machine word.
pub const TASK_TIME_LIMIT: u64 = 0x4000_0000_0000_0000;

/// A scheduled check and the start time of its most recent dispatch.
#[derive(Debug)]
pub struct Task {
    pub last_execution_start: Option<u64>,
    pub details: ServiceCheck,
}

/// The specification-level value of a task.
pub struct TaskView {
    pub last_execution_start: Option<u64>,
    pub details: CheckView,
}

impl View for Task {
    type V = TaskView;

    open spec fn view(&self) -> TaskView {
        TaskView { last_execution_start: self.last_execution_start, details: self.details@ }
    }
}

impl TaskView {
    /// The check's frequency in milliseconds.
    pub open spec fn freq_ms(self) -> int {
        self.details.check_frequency_seconds * 1000
    }

    /// A task the scheduler can hold: a well-formed check, and a last
    /// start that stays below the time bound.
    pub open spec fn wf_view(self) -> bool {
        &&& self.details.check_frequency_seconds >= 0
        &&& (self.last_execution_start matches Some(l) ==> l <= TASK_TIME_LIMIT)
    }

    /// The time the task is next due, seen from `now`: immediately for a
    /// task that never ran; its theoretical time when that is no further
    /// than the tolerance in the past; `now` when the task fell badly
    /// behind (catch up, but do not punish for tiny jitter).
    pub open spec fn next_execution_spec(self, now: int) -> int {
        match self.last_execution_start {
            None => now,
            Some(l) => {
                let scheduled = l + self.freq_ms();
                if scheduled < now - SCHEDULING_TOLERANCE_MILLIS {
                    now
                } else {
                    scheduled
                }
            },
        }
    }
}

impl Task {
    /// A task the scheduler can hold.
    pub open spec fn wf(self) -> bool {
        self@.wf_view()
    }

    /// Computes the time of the next scheduled execution.
    pub fn get_next_execution(&self, now: u64) -> (r: u64)
        requires
            self.wf(),
            now <= TASK_TIME_LIMIT,
        ensures
            r == self@.next_execution_spec(now as int),
    {
        match self.last_execution_start {
            None => now,
            Some(l) => {
                let scheduled = l + (self.details.check_frequency_seconds as u64) * 1000;
                if scheduled + SCHEDULING_TOLERANCE_MILLIS < now {
                    now
                } else {
                    scheduled
                }
            },
        }
    }
}

/// The next-execution time is a fixed point: querying again at the moment
/// a task is due returns that same moment. This is what lets the
/// dispatcher record the scheduled slot as the task's start time without
/// shifting the schedule.
pub proof fn lemma_next_execution_idempotent(t: TaskView, now: int)
    ensures
        t.next_execution_spec(t.next_execution_spec(now)) == t.next_execution_spec(now),
{
}

/// Once a task's start is recorded, it is not due again until one full
/// frequency interval after that start: the scheduler never dispatches a
/// task more than once per interval, whatever range changes or mutation
/// notices arrive in between, as long as they preserve the recorded start
/// and the frequency.
pub proof fn lemma_no_double_dispatch(t: TaskView, later: int)
    requires
        t.last_execution_start is Some,
        t.last_execution_start->Some_0 <= later,
        later < t.last_execution_start->Some_0 + t.freq_ms(),
    ensures
        t.next_execution_spec(later) > later,
{
}

} // verus!

verus! {

/// The specification values of a list of tasks.
pub open spec fn task_views(s: Seq<Task>) -> Seq<TaskView> {
    s.map_values(|t: Task| t@)
}

/// The specification values of a list of checks.
pub open spec fn check_views(s: Seq<ServiceCheck>) -> Seq<CheckView> {
    s.map_values(|c: ServiceCheck| c@)
}

/// Whether some check in the list has this identifier.
pub open spec fn checks_have_id(s: Seq<CheckView>, id: u128) -> bool {
    exists|j: int| 0 <= j < s.len() && (#[trigger] s[j]).check_id == id
}

/// Whether some task in the queue schedules this identifier.
pub open spec fn tasks_have_id(s: Seq<TaskView>, id: u128) -> bool {
    exists|j: int| 0 <= j < s.len() && (#[trigger] s[j]).details.check_id == id
}

/// A task that has never run: it is due immediately.
pub open spec fn fresh_task(c: CheckView) -> TaskView {
    TaskView { last_execution_start: None, details: c }
}

/// Every task is well-formed and no two schedule the same check.
pub open spec fn queue_wf(s: Seq<Task>) -> bool {
    &&& forall|k: int| 0 <= k < s.len() ==> (#[trigger] s[k])@.wf_view()
    &&& forall|a: int, b: int|
        0 <= a < b < s.len() ==> (#[trigger] s[a])@.details.check_id != (#[trigger] s[b])@.details.check_id
}

/// No two checks in the list share an identifier.
pub open spec fn checks_distinct(s: Seq<CheckView>) -> bool {
    forall|a: int, b: int|
        0 <= a < b < s.len() ==> (#[trigger] s[a]).check_id != (#[trigger] s[b]).check_id
}

/// Whether the list of identifiers holds `id`.
pub fn contains_id(ids: &Vec<u128>, id: u128) -> (r: bool)
    ensures
        r == ids@.contains(id),
{
    let n = ids.len();
    let mut i: usize = 0;
    while i < n
        invariant
            n == ids@.len(),
            i <= n,
            forall|k: int| 0 <= k < i ==> ids@[k] != id,
        decreases n - i,
    {
        if ids[i] == id {
            return true;
        }
        i += 1;
    }
    false
}

/// Merges a freshly fetched set of checks into the queue, as the
/// range-sync activity does on every range change.
///
/// Tasks whose check is no longer in the fetched set are dropped; tasks
/// that survive keep their recorded start, so re-acquiring the same range
/// does not reset the schedule; checks not yet scheduled are added as
/// fresh tasks that run immediately.
pub fn merge_new_checks(new_items: Vec<ServiceCheck>, queue: &mut Vec<Task>)
    ensures
        task_views(final(queue)@) == task_views(old(queue)@).filter(
            |t: TaskView| checks_have_id(check_views(new_items@), t.details.check_id),
        ) + check_views(new_items@).filter(
            |c: CheckView| !tasks_have_id(task_views(old(queue)@), c.check_id),
        ).map_values(|c: CheckView| fresh_task(c)),
{
    let ghost old_tasks = task_views(queue@);
    let ghost new_views = check_views(new_items@);

    // The identifiers of the fetched checks, for the retain test.
    let mut new_ids: Vec<u128> = Vec::new();
    let n_new = new_items.len();
    let mut i: usize = 0;
    while i < n_new
        invariant
            n_new == new_items@.len(),
            i <= n_new,
            new_ids@.len() == i,
            forall|k: int| 0 <= k < i ==> #[trigger] new_ids@[k] == new_items@[k].check_id,
        decreases n_new - i,
    {
        new_ids.push(new_items[i].check_id);
        i += 1;
    }
    proof {
        assert forall|id: u128| new_ids@.contains(id) == checks_have_id(new_views, id) by {
            if new_ids@.contains(id) {
                let k = choose|k: int| 0 <= k < new_ids@.len() && new_ids@[k] == id;
                assert(new_views[k].check_id == id);
            }
            if checks_have_id(new_views, id) {
                let k = choose|k: int| 0 <= k < new_views.len() && (#[trigger] new_views[k]).check_id == id;
                assert(new_ids@[k] == id);
            }
        }
    }

    // The identifiers already scheduled, for the freshness test.
    let mut old_ids: Vec<u128> = Vec::new();
    let n_old = queue.len();
    let mut i: usize = 0;
    while i < n_old
        invariant
            n_old == queue@.len(),
            i <= n_old,
            old_ids@.len() == i,
            forall|k: int| 0 <= k < i ==> #[trigger] old_ids@[k] == queue@[k].details.check_id,
        decreases n_old - i,
    {
        old_ids.push(queue[i].details.check_id);
        i += 1;
    }
    proof {
        assert forall|id: u128| old_ids@.contains(id) == tasks_have_id(old_tasks, id) by {
            if old_ids@.contains(id) {
                let k = choose|k: int| 0 <= k < old_ids@.len() && old_ids@[k] == id;
                assert(old_tasks[k].details.check_id == id);
            }
            if tasks_have_id(old_tasks, id) {
                let k = choose|k: int| 0 <= k < old_tasks.len() && (#[trigger] old_tasks[k]).details.check_id == id;
                assert(old_ids@[k] == id);
            }
        }
    }

    let ghost keep_pred = |t: TaskView| checks_have_id(new_views, t.details.check_id);
    let ghost fresh_pred = |c: CheckView| !tasks_have_id(old_tasks, c.check_id);

    // Retain the still-owned tasks, in order.
    let mut out: Vec<Task> = Vec::new();
    let mut i: usize = 0;
    while i < n_old
        invariant
            n_old == old_tasks.len(),
            i <= n_old,
            queue@.len() == n_old - i,
            forall|k: int| 0 <= k < queue@.len() ==> #[trigger] queue@[k]@ == old_tasks[i + k],
            keep_pred == (|t: TaskView| checks_have_id(new_views, t.details.check_id)),
            forall|id: u128| new_ids@.contains(id) == checks_have_id(new_views, id),
            task_views(out@) == old_tasks.take(i as int).filter(keep_pred),
        decreases n_old - i,
    {
        let task = queue.remove(0);
        proof {
            reveal(Seq::filter);
            assert(old_tasks.take(i + 1).drop_last() =~= old_tasks.take(i as int));
            assert(old_tasks.take(i + 1).last() == old_tasks[i as int]);
            assert(task@ == old_tasks[i as int]);
        }
        let ghost out_pre = task_views(out@);
        if contains_id(&new_ids, task.details.check_id) {
            out.push(task);
            proof {
                assert(task_views(out@) =~= out_pre.push(old_tasks[i as int]));
            }
        }
        i += 1;
    }
    proof {
        assert(old_tasks.take(n_old as int) =~= old_tasks);
    }

    // Schedule immediate executions for checks that are new.
    let ghost kept = task_views(out@);
    let mut new_items = new_items;
    let mut i: usize = 0;
    while i < n_new
        invariant
            n_new == new_views.len(),
            i <= n_new,
            new_items@.len() == n_new - i,
            forall|k: int| 0 <= k < new_items@.len() ==> #[trigger] new_items@[k]@ == new_views[i + k],
            fresh_pred == (|c: CheckView| !tasks_have_id(old_tasks, c.check_id)),
            forall|id: u128| old_ids@.contains(id) == tasks_have_id(old_tasks, id),
            task_views(out@) == kept + new_views.take(i as int).filter(fresh_pred).map_values(
                |c: CheckView| fresh_task(c),
            ),
        decreases n_new - i,
    {
        let item = new_items.remove(0);
        proof {
            reveal(Seq::filter);
            assert(new_views.take(i + 1).drop_last() =~= new_views.take(i as int));
            assert(new_views.take(i + 1).last() == new_views[i as int]);
            assert(item@ == new_views[i as int]);
        }
        let ghost out_pre = task_views(out@);
        if !contains_id(&old_ids, item.check_id) {
            out.push(Task { last_execution_start: None, details: item });
            proof {
                assert(task_views(out@) =~= out_pre.push(fresh_task(new_views[i as int])));
                assert(new_views.take(i + 1).filter(fresh_pred) =~= new_views.take(i as int).filter(
                    fresh_pred,
                ).push(new_views[i as int]));
            }
        } else {
            proof {
                assert(new_views.take(i + 1).filter(fresh_pred) =~= new_views.take(i as int).filter(
                    fresh_pred,
                ));
            }
        }
        i += 1;
    }
    proof {
        assert(new_views.take(n_new as int) =~= new_views);
    }
    *queue = out;
}

} // verus!

verus! {

/// No two tasks in the queue schedule the same check.
pub open spec fn tasks_distinct(s: Seq<TaskView>) -> bool {
    forall|a: int, b: int|
        0 <= a < b < s.len() ==> (#[trigger] s[a]).details.check_id != (#[trigger] s[b]).details.check_id
}

/// The first index at which a check identifier is scheduled.
pub open spec fn first_task_index(s: Seq<TaskView>, id: u128) -> int
    decreases s.len(),
{
    if s.len() == 0 {
        0
    } else if s[0].details.check_id == id {
        0
    } else {
        1 + first_task_index(s.drop_first(), id)
    }
}

/// The start time the update protocol carries over to a re-fetched check:
/// the recorded start of its scheduled task, provided the check was named
/// in the update list; nothing otherwise.
pub open spec fn preserved_start(s: Seq<TaskView>, update_list: Seq<u128>, id: u128) -> Option<
    u64,
> {
    if update_list.contains(id) && tasks_have_id(s, id) {
        s[first_task_index(s, id)].last_execution_start
    } else {
        None
    }
}

/// In a duplicate-free queue, a task's index is the first index of its
/// identifier.
proof fn lemma_first_task_index_unique(s: Seq<TaskView>, j: int)
    requires
        tasks_distinct(s),
        0 <= j < s.len(),
    ensures
        first_task_index(s, s[j].details.check_id) == j,
    decreases j,
{
    if j > 0 {
        assert(s[0].details.check_id != s[j].details.check_id);
        assert(tasks_distinct(s.drop_first())) by {
            assert(forall|k: int|
                0 <= k < s.drop_first().len() ==> #[trigger] s.drop_first()[k] == s[k + 1]);
        }
        lemma_first_task_index_unique(s.drop_first(), j - 1);
    }
}

/// Updates the queue from a mutation notice: tasks named in the update
/// list are removed; the re-fetched checks are inserted, keeping the
/// recorded start of the task they replace (a check that was named but
/// not re-fetched was deleted and simply disappears; one fetched anew
/// runs immediately).
pub fn update_tasks(queue: &mut Vec<Task>, update_list: &Vec<u128>, fetched_tasks: Vec<ServiceCheck>)
    requires
        tasks_distinct(task_views(old(queue)@)),
    ensures
        task_views(final(queue)@) == task_views(old(queue)@).filter(
            |t: TaskView| !update_list@.contains(t.details.check_id),
        ) + check_views(fetched_tasks@).map_values(
            |c: CheckView| TaskView {
                last_execution_start: preserved_start(
                    task_views(old(queue)@),
                    update_list@,
                    c.check_id,
                ),
                details: c,
            },
        ),
{
    let ghost old_tasks = task_views(queue@);
    let ghost fetched_views = check_views(fetched_tasks@);
    let ghost keep_pred = |t: TaskView| !update_list@.contains(t.details.check_id);

    // Drain the queue: keep unlisted tasks, record the starts of listed
    // ones together with the index they came from.
    let mut out: Vec<Task> = Vec::new();
    let mut pres_ids: Vec<u128> = Vec::new();
    let mut pres_last: Vec<Option<u64>> = Vec::new();
    let ghost mut pres_src: Seq<int> = Seq::empty();
    let n_old = queue.len();
    let mut i: usize = 0;
    while i < n_old
        invariant
            n_old == old_tasks.len(),
            i <= n_old,
            tasks_distinct(old_tasks),
            queue@.len() == n_old - i,
            forall|k: int| 0 <= k < queue@.len() ==> #[trigger] queue@[k]@ == old_tasks[i + k],
            keep_pred == (|t: TaskView| !update_list@.contains(t.details.check_id)),
            task_views(out@) == old_tasks.take(i as int).filter(keep_pred),
            pres_ids@.len() == pres_last@.len(),
            pres_src.len() == pres_ids@.len(),
            forall|k: int| 0 <= k < pres_src.len() ==> 0 <= #[trigger] pres_src[k] < i,
            forall|k: int|
                0 <= k < pres_src.len() ==> {
                    let j = #[trigger] pres_src[k];
                    &&& old_tasks[j].details.check_id == pres_ids@[k]
                    &&& old_tasks[j].last_execution_start == pres_last@[k]
                    &&& update_list@.contains(pres_ids@[k])
                },
            forall|id: u128|
                (update_list@.contains(id) && tasks_have_id(old_tasks.take(i as int), id))
                    == pres_ids@.contains(id),
        decreases n_old - i,
    {
        let task = queue.remove(0);
        proof {
            reveal(Seq::filter);
            assert(old_tasks.take(i + 1).drop_last() =~= old_tasks.take(i as int));
            assert(old_tasks.take(i + 1).last() == old_tasks[i as int]);
            assert(task@ == old_tasks[i as int]);
        }
        let ghost out_pre = task_views(out@);
        let ghost ids_pre = pres_ids@;
        let ghost cur_id = old_tasks[i as int].details.check_id;
        let listed = contains_id(update_list, task.details.check_id);
        if listed {
            pres_ids.push(task.details.check_id);
            pres_last.push(task.last_execution_start);
            proof {
                pres_src = pres_src.push(i as int);
            }
        } else {
            out.push(task);
            proof {
                assert(task_views(out@) =~= out_pre.push(old_tasks[i as int]));
            }
        }
        proof {
            let prefix = old_tasks.take(i as int);
            let ext = old_tasks.take(i + 1);
            assert(forall|k: int| 0 <= k < i ==> #[trigger] ext[k] == prefix[k]);
            assert(ext[i as int] == old_tasks[i as int]);
            assert forall|id: u128|
                (update_list@.contains(id) && tasks_have_id(ext, id)) == pres_ids@.contains(
                    id,
                ) by {
                // Membership in the extended prefix.
                if tasks_have_id(ext, id) && id != cur_id {
                    let j = choose|j: int|
                        0 <= j < ext.len() && (#[trigger] ext[j]).details.check_id == id;
                    assert(prefix[j].details.check_id == id);
                }
                if tasks_have_id(prefix, id) {
                    let j = choose|j: int|
                        0 <= j < prefix.len() && (#[trigger] prefix[j]).details.check_id == id;
                    assert(ext[j].details.check_id == id);
                }
                assert(tasks_have_id(ext, cur_id));
                // Membership in the recorded identifiers.
                if listed {
                    assert(pres_ids@ =~= ids_pre.push(cur_id));
                    assert(pres_ids@[ids_pre.len() as int] == cur_id);
                    assert(pres_ids@.contains(cur_id));
                    if id != cur_id {
                        if pres_ids@.contains(id) {
                            let k = choose|k: int|
                                0 <= k < pres_ids@.len() && #[trigger] pres_ids@[k] == id;
                            assert(ids_pre[k] == id);
                            assert(ids_pre.contains(id));
                        }
                        if ids_pre.contains(id) {
                            let k = choose|k: int|
                                0 <= k < ids_pre.len() && #[trigger] ids_pre[k] == id;
                            assert(pres_ids@[k] == id);
                        }
                    }
                } else {
                    assert(!update_list@.contains(cur_id));
                }
            }
        }
        i += 1;
    }
    proof {
        assert(old_tasks.take(n_old as int) =~= old_tasks);
        assert forall|id: u128|
            (update_list@.contains(id) && tasks_have_id(old_tasks, id)) == pres_ids@.contains(
                id,
            ) by {
            assert((update_list@.contains(id) && tasks_have_id(old_tasks.take(n_old as int), id))
                == pres_ids@.contains(id));
        }
    }

    // Insert the re-fetched checks, with their preserved starts.
    let ghost kept = task_views(out@);
    let ghost mk = |c: CheckView| TaskView {
        last_execution_start: preserved_start(old_tasks, update_list@, c.check_id),
        details: c,
    };
    let mut fetched_tasks = fetched_tasks;
    let n_new = fetched_tasks.len();
    let mut f: usize = 0;
    while f < n_new
        invariant
            n_new == fetched_views.len(),
            f <= n_new,
            tasks_distinct(old_tasks),
            fetched_tasks@.len() == n_new - f,
            forall|k: int|
                0 <= k < fetched_tasks@.len() ==> #[trigger] fetched_tasks@[k]@ == fetched_views[f
                    + k],
            mk == (|c: CheckView| TaskView {
                last_execution_start: preserved_start(old_tasks, update_list@, c.check_id),
                details: c,
            }),
            pres_ids@.len() == pres_last@.len(),
            pres_src.len() == pres_ids@.len(),
            forall|k: int| 0 <= k < pres_src.len() ==> 0 <= #[trigger] pres_src[k] < old_tasks.len(),
            forall|k: int|
                0 <= k < pres_src.len() ==> {
                    let j = #[trigger] pres_src[k];
                    &&& old_tasks[j].details.check_id == pres_ids@[k]
                    &&& old_tasks[j].last_execution_start == pres_last@[k]
                    &&& update_list@.contains(pres_ids@[k])
                },
            forall|id: u128|
                (update_list@.contains(id) && tasks_have_id(old_tasks, id)) == pres_ids@.contains(
                    id,
                ),
            task_views(out@) == kept + fetched_views.take(f as int).map_values(mk),
        decreases n_new - f,
    {
        let item = fetched_tasks.remove(0);
        proof {
            assert(item@ == fetched_views[f as int]);
        }
        let id = item.check_id;

        // Look up the recorded start of the task this check replaces.
        let mut last: Option<u64> = None;
        let mut found = false;
        let ghost mut found_at: int = 0;
        let np = pres_ids.len();
        let mut k: usize = 0;
        while k < np
            invariant
                np == pres_ids@.len(),
                pres_ids@.len() == pres_last@.len(),
                k <= np,
                !found ==> last is None && forall|t: int| 0 <= t < k ==> pres_ids@[t] != id,
                found ==> 0 <= found_at < np && pres_ids@[found_at] == id && last
                    == pres_last@[found_at],
            decreases np - k,
        {
            if !found && pres_ids[k] == id {
                last = pres_last[k];
                found = true;
                proof {
                    found_at = k as int;
                }
            }
            k += 1;
        }
        proof {
            if found {
                let j = pres_src[found_at];
                lemma_first_task_index_unique(old_tasks, j);
                assert(pres_ids@.contains(pres_ids@[found_at]));
                assert(update_list@.contains(id) && tasks_have_id(old_tasks, id));
                assert(last == preserved_start(old_tasks, update_list@, id));
            } else {
                assert(!pres_ids@.contains(id)) by {
                    if pres_ids@.contains(id) {
                        let t = choose|t: int| 0 <= t < np && #[trigger] pres_ids@[t] == id;
                        assert(pres_ids@[t] != id);
                    }
                }
                assert(preserved_start(old_tasks, update_list@, id) is None);
            }
        }
        let ghost out_pre = task_views(out@);
        out.push(Task { last_execution_start: last, details: item });
        proof {
            assert(task_views(out@) =~= out_pre.push(mk(fetched_views[f as int])));
            assert(fetched_views.take(f + 1).map_values(mk) =~= fetched_views.take(
                f as int,
            ).map_values(mk).push(mk(fetched_views[f as int])));
        }
        f += 1;
    }
    proof {
        assert(fetched_views.take(n_new as int) =~= fetched_views);
    }
    *queue = out;
}

} // verus!

verus! {

/// Every task in the queue is well-formed.
pub open spec fn tasks_wf(s: Seq<TaskView>) -> bool {
    forall|k: int| 0 <= k < s.len() ==> (#[trigger] s[k]).wf_view()
}

/// The earliest next-execution time over a non-empty queue: what the
/// dispatcher sleeps until.
pub open spec fn min_next_execution(s: Seq<TaskView>, now: int) -> int
    recommends
        s.len() > 0,
    decreases s.len(),
{
    if s.len() <= 1 {
        s[0].next_execution_spec(now)
    } else {
        let rest = min_next_execution(s.drop_first(), now);
        if s[0].next_execution_spec(now) <= rest {
            s[0].next_execution_spec(now)
        } else {
            rest
        }
    }
}

/// A task is due at `now` when its next execution is not in the future.
pub open spec fn due_at(t: TaskView, now: int) -> bool {
    t.next_execution_spec(now) <= now
}

/// Retrieves all tasks that are due at `now` and reschedules each of
/// them, recording the scheduled slot (not the wall clock) as its start
/// so that the frequency is measured drift-free. Returns the due checks
/// in queue order, and the earliest next execution over the rescheduled
/// queue, if any task remains.
pub fn get_tasks_to_execute_and_reschedule(queue: &mut Vec<Task>, now: u64) -> (r: (
    Vec<ServiceCheck>,
    Option<u64>,
))
    requires
        tasks_wf(task_views(old(queue)@)),
        now <= TASK_TIME_LIMIT,
    ensures
        final(queue)@.len() == old(queue)@.len(),
        forall|k: int|
            0 <= k < old(queue)@.len() ==> {
                let before = #[trigger] task_views(old(queue)@)[k];
                let after = task_views(final(queue)@)[k];
                &&& after.details == before.details
                &&& after.last_execution_start == if due_at(before, now as int) {
                    Some(before.next_execution_spec(now as int) as u64)
                } else {
                    before.last_execution_start
                }
            },
        tasks_wf(task_views(final(queue)@)),
        r.0@.map_values(|c: ServiceCheck| c@) == task_views(old(queue)@).filter(
            |t: TaskView| due_at(t, now as int),
        ).map_values(|t: TaskView| t.details),
        r.1 is None <==> old(queue)@.len() == 0,
        r.1 matches Some(m) ==> m == min_next_execution(task_views(final(queue)@), now as int),
{
    let ghost old_tasks = task_views(queue@);
    let ghost due_pred = |t: TaskView| due_at(t, now as int);

    let n = queue.len();
    let mut dispatched: Vec<ServiceCheck> = Vec::new();
    let mut i: usize = 0;
    while i < n
        invariant
            n == queue@.len(),
            n == old_tasks.len(),
            i <= n,
            now <= TASK_TIME_LIMIT,
            tasks_wf(old_tasks),
            due_pred == (|t: TaskView| due_at(t, now as int)),
            forall|k: int| i <= k < n ==> #[trigger] queue@[k]@ == old_tasks[k],
            forall|k: int|
                0 <= k < i ==> {
                    let before = old_tasks[k];
                    let after = (#[trigger] queue@[k])@;
                    &&& after.details == before.details
                    &&& after.last_execution_start == if due_at(before, now as int) {
                        Some(before.next_execution_spec(now as int) as u64)
                    } else {
                        before.last_execution_start
                    }
                    &&& after.wf_view()
                },
            dispatched@.map_values(|c: ServiceCheck| c@) == old_tasks.take(i as int).filter(
                due_pred,
            ).map_values(|t: TaskView| t.details),
        decreases n - i,
    {
        proof {
            reveal(Seq::filter);
            assert(old_tasks.take(i + 1).drop_last() =~= old_tasks.take(i as int));
            assert(old_tasks.take(i + 1).last() == old_tasks[i as int]);
        }
        let ghost disp_pre = dispatched@.map_values(|c: ServiceCheck| c@);
        let next = queue[i].get_next_execution(now);
        if next <= now {
            let details = queue[i].details.clone_check();
            let last = queue[i].last_execution_start;
            // Record the scheduled slot, not the wall clock, so the next
            // run is one frequency after the slot.
            let replaced = queue.remove(i);
            let ghost mid = queue@;
            queue.insert(i, Task { last_execution_start: Some(next), details: replaced.details });
            proof {
                assert(forall|k: int|
                    0 <= k < i ==> #[trigger] queue@[k] == mid.insert(i as int, queue@[i as int])[k]);
                assert(queue@[i as int]@.details == old_tasks[i as int].details);
                assert(forall|k: int| i < k < n ==> #[trigger] queue@[k] == mid[k - 1]);
            }
            dispatched.push(details);
            proof {
                assert(dispatched@.map_values(|c: ServiceCheck| c@) =~= disp_pre.push(
                    old_tasks[i as int].details,
                ));
                assert(old_tasks.take(i + 1).filter(due_pred).map_values(|t: TaskView| t.details)
                    =~= old_tasks.take(i as int).filter(due_pred).map_values(
                    |t: TaskView| t.details,
                ).push(old_tasks[i as int].details));
            }
        } else {
            proof {
                assert(old_tasks.take(i + 1).filter(due_pred) =~= old_tasks.take(i as int).filter(
                    due_pred,
                ));
            }
        }
        i += 1;
    }
    proof {
        assert(old_tasks.take(n as int) =~= old_tasks);
        assert(dispatched@.map_values(|c: ServiceCheck| c@) =~= old_tasks.filter(
            due_pred,
        ).map_values(|t: TaskView| t.details));
    }

    // The dispatcher's next wake-up: the earliest next execution left.
    if queue.len() == 0 {
        return (dispatched, None);
    }
    let ghost new_tasks = task_views(queue@);
    let mut min: u64 = queue[0].get_next_execution(now);
    proof {
        lemma_min_next_prefix(new_tasks, 1, now as int);
    }
    let mut k: usize = 1;
    while k < n
        invariant
            n == queue@.len(),
            1 <= k <= n,
            now <= TASK_TIME_LIMIT,
            new_tasks == task_views(queue@),
            tasks_wf(new_tasks),
            min == min_next_execution(new_tasks.take(k as int), now as int),
        decreases n - k,
    {
        proof {
            assert(queue@[k as int]@ == new_tasks[k as int]);
            assert(new_tasks[k as int].wf_view());
        }
        let next = queue[k].get_next_execution(now);
        proof {
            lemma_min_next_step(new_tasks, k as int, now as int);
        }
        if next < min {
            min = next;
        }
        k += 1;
    }
    proof {
        assert(new_tasks.take(n as int) =~= new_tasks);
    }
    (dispatched, Some(min))
}

/// The minimum over a one-element prefix is that element's time.
proof fn lemma_min_next_prefix(s: Seq<TaskView>, one: int, now: int)
    requires
        s.len() >= 1,
        one == 1,
    ensures
        min_next_execution(s.take(1), now) == s[0].next_execution_spec(now),
{
    assert(s.take(1)[0] == s[0]);
}

/// Extending the prefix by one element takes the smaller of the running
/// minimum and that element's time.
proof fn lemma_min_next_step(s: Seq<TaskView>, k: int, now: int)
    requires
        1 <= k < s.len(),
    ensures
        min_next_execution(s.take(k + 1), now) == if s[k].next_execution_spec(now)
            <= min_next_execution(s.take(k), now) {
            s[k].next_execution_spec(now)
        } else {
            min_next_execution(s.take(k), now)
        },
    decreases k,
{
    let a = s.take(k + 1);
    if k == 1 {
        assert(a.drop_first() =~= s.subrange(1, 2));
        assert(a.drop_first().len() == 1);
        assert(a.drop_first()[0] == s[1]);
        assert(min_next_execution(a.drop_first(), now) == s[1].next_execution_spec(now));
        assert(s.take(1)[0] == s[0]);
        assert(a[0] == s[0]);
    } else {
        assert(a.drop_first() =~= s.drop_first().take(k));
        assert(s.take(k).drop_first() =~= s.drop_first().take(k - 1));
        lemma_min_next_step(s.drop_first(), k - 1, now);
        assert(forall|t: int| 0 <= t < s.drop_first().len() ==> #[trigger] s.drop_first()[t] == s[t + 1]);
        assert(a[0] == s[0]);
        assert(s.take(k)[0] == s[0]);
    }
}

/// Filters a mutation notice down to the checks whose bucket lies in the
/// currently owned range; with no range owned, nothing passes.
pub fn filter_check_ids_by_range(
    check_ids: Vec<u128>,
    range: Option<crate::ring::RingRange>,
    ring_size: crate::ring::NodePosition,
) -> (r: Vec<u128>)
    requires
        ring_size > 0,
    ensures
        r@ == match range {
            Some(rg) => check_ids@.filter(
                |id: u128| rg.spec_contains((id % (ring_size as u128)) as crate::ring::NodePosition),
            ),
            None => Seq::<u128>::empty(),
        },
{
    let rg = match range {
        Some(rg) => rg,
        None => {
            return Vec::new();
        },
    };
    let ghost pred = |id: u128| rg.spec_contains(
        (id % (ring_size as u128)) as crate::ring::NodePosition,
    );
    let mut out: Vec<u128> = Vec::new();
    let n = check_ids.len();
    let mut i: usize = 0;
    while i < n
        invariant
            n == check_ids@.len(),
            i <= n,
            ring_size > 0,
            pred == (|id: u128| rg.spec_contains(
                (id % (ring_size as u128)) as crate::ring::NodePosition,
            )),
            out@ == check_ids@.take(i as int).filter(pred),
        decreases n - i,
    {
        proof {
            reveal(Seq::filter);
            assert(check_ids@.take(i + 1).drop_last() =~= check_ids@.take(i as int));
            assert(check_ids@.take(i + 1).last() == check_ids@[i as int]);
        }
        let id = check_ids[i];
        let bucket = crate::ring::bucket_index(id, ring_size);
        if rg.contains(bucket) {
            out.push(id);
        }
        i += 1;
    }
    proof {
        assert(check_ids@.take(n as int) =~= check_ids@);
    }
    out
}

/// How long the dispatcher sleeps when no wake-up is scheduled: in dev
/// mode effectively forever, otherwise one second.
pub const IDLE_WAIT_DEV_MILLIS: u64 = 100000000;

/// See [`IDLE_WAIT_DEV_MILLIS`].
pub const IDLE_WAIT_MILLIS: u64 = 1000;

/// The time the dispatcher waits before its next pass: until the next
/// scheduled execution, or an idle pause when the queue is empty.
pub fn dispatch_wait_millis(next: Option<u64>, now: u64, dev_mode: bool) -> (r: u64)
    ensures
        r == match next {
            Some(t) => if t > now {
                t - now
            } else {
                0
            },
            None => if dev_mode {
                IDLE_WAIT_DEV_MILLIS as int
            } else {
                IDLE_WAIT_MILLIS as int
            },
        },
{
    match next {
        Some(t) => if t > now {
            t - now
        } else {
            0
        },
        None => if dev_mode {
            IDLE_WAIT_DEV_MILLIS
        } else {
            IDLE_WAIT_MILLIS
        },
    }
}

} // verus!
