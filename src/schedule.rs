//! The scan of the input directory and the dispatcher that hands its files
//! to jobs, never more at once than the concurrency limit allows.
use vstd::prelude::*;
use vstd::string::*;

verus! {

/// A file to encode: where it is read and where its encoding is written.
pub struct WorkItem {
    pub source: String,
    pub destination: String,
}

impl View for WorkItem {
    type V = (Seq<char>, Seq<char>);

    open spec fn view(&self) -> (Seq<char>, Seq<char>) {
        (self.source@, self.destination@)
    }
}

impl WorkItem {
    /// A copy of this item.
    pub fn copy(&self) -> (r: WorkItem)
        ensures
            r@ == self@,
    {
        WorkItem { source: self.source.clone(), destination: self.destination.clone() }
    }
}

/// The extension of the files that are encoded.
pub open spec fn media_extension() -> Seq<char> {
    seq!['.', 'm', 'p', '4']
}

/// A file name with the media extension.
pub open spec fn is_media_name(name: Seq<char>) -> bool {
    name.len() >= 4 && name.subrange(name.len() - 4, name.len() as int) == media_extension()
}

/// The media files among `names`, in their order.
pub open spec fn media_names(names: Seq<Seq<char>>) -> Seq<Seq<char>>
    decreases names.len(),
{
    if names.len() == 0 {
        names
    } else if is_media_name(names.last()) {
        media_names(names.drop_last()).push(names.last())
    } else {
        media_names(names.drop_last())
    }
}

/// `dir/name`.
pub open spec fn joined(dir: Seq<char>, name: Seq<char>) -> Seq<char> {
    dir + seq!['/'] + name
}

/// The work of one scan: for each media file, in order, its path under the
/// input directory and its path under the output directory.
pub open spec fn work_of(names: Seq<Seq<char>>, input_dir: Seq<char>, output_dir: Seq<char>) -> Seq<
    (Seq<char>, Seq<char>),
> {
    media_names(names).map_values(|n: Seq<char>| (joined(input_dir, n), joined(output_dir, n)))
}

/// Whether `name` has the media extension.
pub fn is_media_file(name: &str) -> (r: bool)
    ensures
        r == is_media_name(name@),
{
    let n = name.unicode_len();
    if n < 4 {
        return false;
    }
    let r = name.get_char(n - 4) == '.' && name.get_char(n - 3) == 'm' && name.get_char(n - 2)
        == 'p' && name.get_char(n - 1) == '4';
    assert(r == (name@.subrange(n - 4, n as int) =~= media_extension()));
    r
}

fn join(dir: &str, name: &str) -> (r: String)
    ensures
        r@ == joined(dir@, name@),
{
    let mut r = String::from_str(dir);
    r.append("/");
    r.append(name);
    proof {
        reveal_strlit("/");
    }
    assert(r@ =~= joined(dir@, name@));
    r
}

/// One scan of the input directory, given the names of its entries: a work
/// item for each media file, in the order of the listing.
pub fn scan(names: &Vec<String>, input_dir: &str, output_dir: &str) -> (r: Vec<WorkItem>)
    ensures
        r@.map_values(|w: WorkItem| w@) == work_of(
            names@.map_values(|s: String| s@),
            input_dir@,
            output_dir@,
        ),
{
    let ghost all = names@.map_values(|s: String| s@);
    let mut r: Vec<WorkItem> = Vec::new();
    let mut i: usize = 0;
    assert(all.subrange(0, 0) =~= Seq::<Seq<char>>::empty());
    assert(r@.map_values(|w: WorkItem| w@) =~= work_of(all.subrange(0, 0), input_dir@, output_dir@));
    while i < names.len()
        invariant
            i <= names@.len(),
            all == names@.map_values(|s: String| s@),
            r@.map_values(|w: WorkItem| w@) == work_of(
                all.subrange(0, i as int),
                input_dir@,
                output_dir@,
            ),
        decreases names@.len() - i,
    {
        let ghost prev = r@;
        let ghost pre = all.subrange(0, i + 1);
        assert(pre.drop_last() =~= all.subrange(0, i as int));
        assert(pre.last() == names@[i as int]@);
        let name = names[i].as_str();
        if is_media_file(name) {
            let item = WorkItem { source: join(input_dir, name), destination: join(output_dir, name) };
            r.push(item);
            assert(r@ == prev.push(item));
            let ghost m = media_names(all.subrange(0, i as int));
            assert(media_names(pre) == m.push(name@));
            assert(m.push(name@).map_values(
                |n: Seq<char>| (joined(input_dir@, n), joined(output_dir@, n)),
            ) =~= m.map_values(|n: Seq<char>| (joined(input_dir@, n), joined(output_dir@, n))).push(
                (joined(input_dir@, name@), joined(output_dir@, name@)),
            ));
            assert(r@.map_values(|w: WorkItem| w@) =~= work_of(pre, input_dir@, output_dir@));
        } else {
            assert(r@.map_values(|w: WorkItem| w@) =~= work_of(pre, input_dir@, output_dir@));
        }
        i = i + 1;
    }
    assert(all.subrange(0, i as int) =~= all);
    r
}

/// What the scan loop does next.
pub enum Step {
    /// Start a job on this item.
    Dispatch(WorkItem),
    /// Wait until every job of the current batch has finished, then report it.
    AwaitBatch,
    /// The cycle is over: every item has run. Sleep, then scan again.
    Sleep,
}

/// The state of one cycle: its items, how many have been dispatched, how
/// many of those run in the current batch, and the limit on that number.
pub ghost struct CycleState {
    pub items: Seq<(Seq<char>, Seq<char>)>,
    pub next: int,
    pub in_flight: int,
    pub limit: int,
}

/// Hands out the items of one cycle, in order, in batches of at most `limit`
/// jobs; a batch is awaited whole before the next one starts.
pub struct Dispatcher {
    items: Vec<WorkItem>,
    next: usize,
    in_flight: usize,
    limit: usize,
}

impl View for Dispatcher {
    type V = CycleState;

    closed spec fn view(&self) -> CycleState {
        CycleState {
            items: self.items@.map_values(|w: WorkItem| w@),
            next: self.next as int,
            in_flight: self.in_flight as int,
            limit: self.limit as int,
        }
    }
}

/// A cycle state within its bounds: never more jobs running than the limit.
pub open spec fn cycle_wf(c: CycleState) -> bool {
    1 <= c.limit && 0 <= c.next <= c.items.len() && 0 <= c.in_flight <= c.limit
}

/// The step that a cycle state calls for.
pub open spec fn next_step(c: CycleState) -> Option<(Seq<char>, Seq<char>)> {
    if c.in_flight < c.limit && c.next < c.items.len() {
        Some(c.items[c.next])
    } else {
        None
    }
}

impl Dispatcher {
    pub open spec fn wf(&self) -> bool {
        cycle_wf(self@)
    }

    /// A cycle over `items` with at most `limit` jobs at a time; none running yet.
    pub fn new(items: Vec<WorkItem>, limit: usize) -> (r: Dispatcher)
        requires
            limit >= 1,
        ensures
            r.wf(),
            r@ == (CycleState {
                items: items@.map_values(|w: WorkItem| w@),
                next: 0,
                in_flight: 0,
                limit: limit as int,
            }),
    {
        Dispatcher { items, next: 0, in_flight: 0, limit }
    }

    /// The number of jobs of the current batch.
    pub fn in_flight(&self) -> (r: usize)
        ensures
            r == self@.in_flight,
    {
        self.in_flight
    }

    /// The next step. Below the limit the next item is dispatched and counted
    /// as running; at the limit, or once every item is out while jobs still
    /// run, the batch is awaited; with every item out and none running the
    /// cycle sleeps. No step takes the running count above the limit.
    pub fn step(&mut self) -> (r: Step)
        requires
            old(self).wf(),
        ensures
            final(self).wf(),
            final(self)@.in_flight <= final(self)@.limit,
            match r {
                Step::Dispatch(item) => {
                    &&& next_step(old(self)@) == Some(item@)
                    &&& final(self)@ == (CycleState {
                        next: old(self)@.next + 1,
                        in_flight: old(self)@.in_flight + 1,
                        ..old(self)@
                    })
                },
                Step::AwaitBatch => {
                    &&& next_step(old(self)@) is None
                    &&& old(self)@.in_flight > 0
                    &&& final(self)@ == old(self)@
                },
                Step::Sleep => {
                    &&& old(self)@.next == old(self)@.items.len()
                    &&& old(self)@.in_flight == 0
                    &&& final(self)@ == old(self)@
                },
            },
    {
        if self.in_flight < self.limit && self.next < self.items.len() {
            let item = self.items[self.next].copy();
            self.next = self.next + 1;
            self.in_flight = self.in_flight + 1;
            Step::Dispatch(item)
        } else if self.in_flight > 0 {
            Step::AwaitBatch
        } else {
            Step::Sleep
        }
    }

    /// Every job of the current batch has finished.
    pub fn batch_done(&mut self)
        requires
            old(self).wf(),
        ensures
            final(self).wf(),
            final(self)@ == (CycleState { in_flight: 0, ..old(self)@ }),
    {
        self.in_flight = 0;
    }
}

/// The names of `names` not in `done`, in their order.
pub open spec fn remaining(names: Seq<Seq<char>>, done: Set<Seq<char>>) -> Seq<Seq<char>>
    decreases names.len(),
{
    if names.len() == 0 {
        names
    } else if done.contains(names.last()) {
        remaining(names.drop_last(), done)
    } else {
        remaining(names.drop_last(), done).push(names.last())
    }
}

/// Scanning a listing from which the files in `done` have gone finds the
/// media files of the earlier listing that are not in `done`, in order.
pub proof fn lemma_rescan(names: Seq<Seq<char>>, done: Set<Seq<char>>)
    ensures
        media_names(remaining(names, done)) == remaining(media_names(names), done),
    decreases names.len(),
{
    if names.len() > 0 {
        lemma_rescan(names.drop_last(), done);
        let r = remaining(names.drop_last(), done);
        if !done.contains(names.last()) {
            assert(remaining(names, done).drop_last() =~= r);
        }
        if is_media_name(names.last()) {
            assert(media_names(names).drop_last() =~= media_names(names.drop_last()));
        }
    }
}

/// After a cycle in which every media file but `failed` succeeded and was
/// removed, the next scan finds exactly `failed`.
pub proof fn lemma_rescan_only_failed(
    names: Seq<Seq<char>>,
    done: Set<Seq<char>>,
    failed: Seq<char>,
)
    requires
        names.no_duplicates(),
        names.contains(failed),
        is_media_name(failed),
        !done.contains(failed),
        forall|n: Seq<char>| names.contains(n) && is_media_name(n) && n != failed ==> done.contains(n),
    ensures
        media_names(remaining(names, done)) == seq![failed],
{
    lemma_rescan(names, done);
    lemma_only_failed(names, done, failed);
}

proof fn lemma_only_failed(names: Seq<Seq<char>>, done: Set<Seq<char>>, failed: Seq<char>)
    requires
        names.no_duplicates(),
        !done.contains(failed),
        forall|n: Seq<char>| names.contains(n) && is_media_name(n) && n != failed ==> done.contains(n),
    ensures
        names.contains(failed) && is_media_name(failed) ==> remaining(media_names(names), done)
            == seq![failed],
        !(names.contains(failed) && is_media_name(failed)) ==> remaining(media_names(names), done)
            == Seq::<Seq<char>>::empty(),
    decreases names.len(),
{
    if names.len() > 0 {
        let init = names.drop_last();
        let x = names.last();
        assert forall|n: Seq<char>|
            init.contains(n) && is_media_name(n) && n != failed implies done.contains(n) by {
            let k = choose|k: int| 0 <= k < init.len() && init[k] == n;
            assert(names[k] == n);
        }
        lemma_only_failed(init, done, failed);
        assert(names.contains(x));
        if init.contains(failed) {
            let k = choose|k: int| 0 <= k < init.len() && init[k] == failed;
            assert(names[k] == init[k]);
        }
        if x == failed {
            assert(!init.contains(failed)) by {
                if init.contains(failed) {
                    let k = choose|k: int| 0 <= k < init.len() && init[k] == failed;
                    assert(names[k] == names[names.len() - 1]);
                }
            }
        }
        if names.contains(failed) && x != failed {
            let k = choose|k: int| 0 <= k < names.len() && names[k] == failed;
            assert(init[k] == failed);
        }
        if is_media_name(x) {
            let m = media_names(init);
            assert(media_names(names) == m.push(x));
            assert(m.push(x).drop_last() =~= m);
        }
    }
}

} // verus!
