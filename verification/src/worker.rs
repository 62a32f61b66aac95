//! Background page rasterization: what is asked for, and what is carried out next.
//!
//! Rasterizing a page takes far longer than showing one, so it happens on a thread of its own. The
//! thread keeps the jobs that it has taken off its channel in a [`JobQueue`] and carries out one of
//! them per pass, so that a request for display waits for at most the page being rasterized.
use vstd::prelude::*;

verus! {

/// The direction in which the content (the ink) of a page is fitted.
#[derive(Clone, Copy, PartialEq, Eq, Structural, Debug)]
pub enum Fit {
    /// The full left-right extent of the content; the vertical extent may overflow.
    Width,
    /// The full top-bottom extent of the content.
    Height,
}

/// What to draw. It carries everything that is needed to derive a viewport, so that a page can be
/// asked for without knowing its dimensions. `T` is the type of a page coordinate.
#[derive(Clone, Copy, Debug)]
pub struct ViewRequest<T> {
    pub page: usize,
    pub zoom: u32,
    /// Viewport center in page coordinates. `None` centers the page.
    pub center: Option<(T, T)>,
    /// Fit to the content first, overriding `zoom` and `center`.
    pub fit: Option<Fit>,
    pub out_w: u32,
    pub out_h: u32,
    /// When the page was last modified, in nanoseconds since the Unix epoch.
    pub mtime: i128,
    /// Whether the result may be cached.
    pub cacheable: bool,
}

/// A finished frame.
#[derive(Debug)]
pub struct RenderedPage<T> {
    pub page: usize,
    pub rgba: Vec<u8>,
    pub out_w: u32,
    pub out_h: u32,
    pub viewport: [T; 4],
    /// The zoom that was used: a fit request changes it.
    pub zoom: u32,
    pub mtime: i128,
    pub cacheable: bool,
    /// Whether the frame was asked for to be displayed, not to warm the cache.
    pub for_display: bool,
    /// The ordinal of the request, by which a superseded frame is recognized.
    pub seq: u64,
}

/// One job of the render thread.
#[derive(Clone, Copy, Debug)]
pub enum Job<T> {
    View { req: ViewRequest<T>, for_display: bool, seq: u64 },
    Text { page: usize },
    /// Open the document again: the file changed.
    Reopen,
    Quit,
}

impl<T> Job<T> {
    /// A request whose frame is to be displayed.
    pub open spec fn is_display(self) -> bool {
        self matches Job::View { for_display, .. } && for_display
    }

    /// A request whose frame only warms the cache.
    pub open spec fn is_prefetch(self) -> bool {
        self matches Job::View { for_display, .. } && !for_display
    }
}

/// The side that asks for pages. It numbers the requests for display.
#[derive(Debug)]
pub struct RenderWorker {
    seq: u64,
}

impl RenderWorker {
    /// The ordinal of the most recent request for display, 0 before the first.
    pub closed spec fn last_seq(self) -> u64 {
        self.seq
    }

    /// No request yet.
    pub fn new() -> (r: Self)
        ensures
            r.last_seq() == 0,
    {
        RenderWorker { seq: 0 }
    }

    /// Asks for a frame to be displayed. Gives the ordinal of the request; a frame that carries an
    /// older one is stale.
    pub fn show<T>(&mut self, req: ViewRequest<T>) -> (r: (u64, Job<T>))
        requires
            old(self).last_seq() < u64::MAX,
        ensures
            final(self).last_seq() == old(self).last_seq() + 1,
            r.0 == final(self).last_seq(),
            r.1 == (Job::View { req, for_display: true, seq: r.0 }),
            r.1.is_display(),
    {
        self.seq = self.seq + 1;
        (self.seq, Job::View { req, for_display: true, seq: self.seq })
    }

    /// Asks for a frame that warms the cache. It is never displayed, and dropped whenever a request
    /// for display is waiting.
    pub fn prefetch<T>(&self, req: ViewRequest<T>) -> (r: Job<T>)
        ensures
            r == (Job::View { req, for_display: false, seq: 0 }),
            r.is_prefetch(),
    {
        Job::View { req, for_display: false, seq: 0 }
    }

    /// Asks for the text layer of a page.
    pub fn text<T>(&self, page: usize) -> (r: Job<T>)
        ensures
            r == (Job::<T>::Text { page }),
    {
        Job::Text { page }
    }

    /// Asks for the document to be opened again.
    pub fn reopen<T>(&self) -> (r: Job<T>)
        ensures
            r == Job::<T>::Reopen,
    {
        Job::Reopen
    }
}

/// What the render thread does in one pass.
#[derive(Debug)]
pub enum Step<T> {
    /// Nothing to do.
    Idle,
    /// End the thread.
    Quit,
    /// Open the document again.
    Reopen,
    /// Rasterize for display.
    Show { req: ViewRequest<T>, seq: u64 },
    /// Read the text layer of a page.
    Text { page: usize },
    /// Rasterize to warm the cache.
    Prefetch { req: ViewRequest<T> },
}

/// Some job in `q` ends the thread.
pub open spec fn has_quit<T>(q: Seq<Job<T>>) -> bool {
    exists|i: int| 0 <= i < q.len() && #[trigger] q[i] is Quit
}

/// Some job in `q` opens the document again.
pub open spec fn has_reopen<T>(q: Seq<Job<T>>) -> bool {
    exists|i: int| 0 <= i < q.len() && #[trigger] q[i] is Reopen
}

/// `i` is the place of the newest request for display.
pub open spec fn newest_display<T>(q: Seq<Job<T>>, i: int) -> bool {
    &&& 0 <= i < q.len()
    &&& q[i].is_display()
    &&& forall|j: int| i < j < q.len() ==> !(#[trigger] q[j]).is_display()
}

/// Some job in `q` is a request for display.
pub open spec fn has_display<T>(q: Seq<Job<T>>) -> bool {
    exists|i: int| 0 <= i < q.len() && (#[trigger] q[i]).is_display()
}

/// `i` is the place of the oldest request for a text layer.
pub open spec fn oldest_text<T>(q: Seq<Job<T>>, i: int) -> bool {
    &&& 0 <= i < q.len()
    &&& q[i] is Text
    &&& forall|j: int| 0 <= j < i ==> !((#[trigger] q[j]) is Text)
}

/// Some job in `q` asks for a text layer.
pub open spec fn has_text<T>(q: Seq<Job<T>>) -> bool {
    exists|i: int| 0 <= i < q.len() && #[trigger] q[i] is Text
}

/// The jobs of `q` that ask for no frame, neither to display it nor to warm the cache, in their
/// order.
pub open spec fn without_views<T>(q: Seq<Job<T>>) -> Seq<Job<T>>
    decreases q.len(),
{
    if q.len() == 0 {
        q
    } else if q.last() is View {
        without_views(q.drop_last())
    } else {
        without_views(q.drop_last()).push(q.last())
    }
}

/// The step that carries out a request for display.
pub open spec fn showing<T>(job: Job<T>) -> Step<T> {
    match job {
        Job::View { req, seq, .. } => Step::Show { req, seq },
        _ => Step::Idle,
    }
}

/// The step that carries out a request for a text layer.
pub open spec fn reading<T>(job: Job<T>) -> Step<T> {
    match job {
        Job::Text { page } => Step::Text { page },
        _ => Step::Idle,
    }
}

/// The step that carries out a prefetch.
pub open spec fn warming<T>(job: Job<T>) -> Step<T> {
    match job {
        Job::View { req, .. } => Step::Prefetch { req },
        _ => Step::Idle,
    }
}

/// What a pass over the jobs `before` does and leaves, given whether the document is open.
///
/// Ending comes first. Opening the document again discards everything queued: it refers to the old
/// edition. Without a document everything queued is discarded too. Otherwise the newest request for
/// display is carried out, and the older ones and the prefetches are dropped with it, so that only
/// the requests for text layers stay; then the oldest of these is carried out; then the oldest
/// prefetch.
pub open spec fn pass<T>(
    before: Seq<Job<T>>,
    open: bool,
    step: Step<T>,
    after: Seq<Job<T>>,
) -> bool {
    if has_quit(before) {
        step == Step::<T>::Quit && after == before
    } else if has_reopen(before) {
        step == Step::<T>::Reopen && after == Seq::<Job<T>>::empty()
    } else if !open {
        step == Step::<T>::Idle && after == Seq::<Job<T>>::empty()
    } else if has_display(before) {
        &&& after == without_views(before)
        &&& exists|i: int| #[trigger] newest_display(before, i) && step == showing(before[i])
    } else if has_text(before) {
        exists|i: int| #[trigger]
            oldest_text(before, i) && step == reading(before[i]) && after == before.remove(i)
    } else if before.len() > 0 {
        step == warming(before[0]) && after == before.remove(0)
    } else {
        step == Step::<T>::Idle && after == before
    }
}

/// The jobs taken off the channel and not yet carried out, oldest first.
#[derive(Debug)]
pub struct JobQueue<T> {
    jobs: Vec<Job<T>>,
}

impl<T> View for JobQueue<T> {
    type V = Seq<Job<T>>;

    closed spec fn view(&self) -> Seq<Job<T>> {
        self.jobs@
    }
}

impl<T: Copy> JobQueue<T> {
    /// No jobs.
    pub fn new() -> (r: Self)
        ensures
            r@ == Seq::<Job<T>>::empty(),
    {
        JobQueue { jobs: Vec::new() }
    }

    /// Adds a job behind the others.
    pub fn push(&mut self, job: Job<T>)
        ensures
            final(self)@ == old(self)@.push(job),
    {
        self.jobs.push(job);
    }

    /// Whether there are no jobs.
    pub fn is_empty(&self) -> (r: bool)
        ensures
            r == (self@.len() == 0),
    {
        self.jobs.len() == 0
    }

    /// Takes out what is to be done in this pass. `open` tells whether the document is open.
    pub fn next(&mut self, open: bool) -> (r: Step<T>)
        ensures
            pass(old(self)@, open, r, final(self)@),
    {
        let ghost q = self.jobs@;
        let n: usize = self.jobs.len();
        let mut quit = false;
        let mut reopen = false;
        let mut newest: Option<usize> = None;
        let mut text: Option<usize> = None;
        let mut kept: Vec<Job<T>> = Vec::new();
        assert(q.take(0) =~= Seq::<Job<T>>::empty());
        for i in 0..n
            invariant
                self.jobs@ == q,
                n == q.len(),
                quit == has_quit(q.take(i as int)),
                reopen == has_reopen(q.take(i as int)),
                newest is None ==> !has_display(q.take(i as int)),
                newest matches Some(k) ==> newest_display(q.take(i as int), k as int),
                text is None ==> !has_text(q.take(i as int)),
                text matches Some(k) ==> oldest_text(q.take(i as int), k as int),
                kept@ == without_views(q.take(i as int)),
        {
            let job = self.jobs[i];
            let ghost p = q.take(i as int);
            let ghost p1 = q.take(i + 1);
            assert(p1 =~= p.push(job));
            assert(p1.drop_last() =~= p);
            assert(p1[i as int] == job);
            assert(forall|j: int| 0 <= j < i ==> p1[j] == #[trigger] p[j]);
            assert(forall|j: int| 0 <= j < i ==> p[j] == #[trigger] p1[j]);
            match job {
                Job::Quit => {
                    quit = true;
                    kept.push(job);
                },
                Job::Reopen => {
                    reopen = true;
                    kept.push(job);
                },
                Job::Text { .. } => {
                    if text.is_none() {
                        text = Some(i);
                    }
                    kept.push(job);
                },
                Job::View { for_display, .. } => {
                    if for_display {
                        newest = Some(i);
                    }
                },
            }
        }
        assert(q.take(n as int) =~= q);
        if quit {
            return Step::Quit;
        }
        if reopen {
            self.jobs.clear();
            return Step::Reopen;
        }
        if !open {
            self.jobs.clear();
            return Step::Idle;
        }
        if let Some(k) = newest {
            let job = self.jobs[k];
            assert(newest_display(q, k as int));
            assert(has_display(q));
            self.jobs = kept;
            if let Job::View { req, seq, .. } = job {
                return Step::Show { req, seq };
            }
            return Step::Idle;
        }
        if let Some(k) = text {
            assert(oldest_text(q, k as int));
            assert(has_text(q));
            let job = self.jobs.remove(k);
            if let Job::Text { page } = job {
                return Step::Text { page };
            }
            return Step::Idle;
        }
        if n > 0 {
            assert(!(q[0] is Quit) && !(q[0] is Reopen) && !(q[0] is Text) && !q[0].is_display());
            let job = self.jobs.remove(0);
            if let Job::View { req, .. } = job {
                return Step::Prefetch { req };
            }
        }
        Step::Idle
    }
}

/// Some job in `q` asks for a frame.
pub open spec fn has_view<T>(q: Seq<Job<T>>) -> bool {
    exists|i: int| 0 <= i < q.len() && #[trigger] q[i] is View
}

proof fn lemma_without_views<T>(q: Seq<Job<T>>)
    ensures
        without_views(q).len() <= q.len(),
        has_view(q) ==> without_views(q).len() < q.len(),
        !has_view(without_views(q)),
        forall|j: Job<T>| !(j is View) ==> (#[trigger] without_views(q).contains(j) <==> q.contains(j)),
    decreases q.len(),
{
    if q.len() > 0 {
        let p = q.drop_last();
        lemma_without_views(p);
        let w = without_views(p);
        assert(forall|i: int| 0 <= i < p.len() ==> p[i] == #[trigger] q[i]);
        assert forall|j: Job<T>| !(j is View) implies (#[trigger] without_views(q).contains(j)
            <==> q.contains(j)) by {
            if q.contains(j) {
                let i = choose|i: int| 0 <= i < q.len() && q[i] == j;
                if i < p.len() {
                    assert(p[i] == j);
                    assert(p.contains(j));
                    assert(w.contains(j));
                    let k = choose|k: int| 0 <= k < w.len() && w[k] == j;
                    assert(without_views(q)[k] == j);
                } else {
                    assert(without_views(q).last() == j);
                }
            }
            if without_views(q).contains(j) {
                let k = choose|k: int| 0 <= k < without_views(q).len() && without_views(q)[k] == j;
                if k < w.len() {
                    assert(w[k] == j);
                    assert(w.contains(j));
                    let i = choose|i: int| 0 <= i < p.len() && p[i] == j;
                    assert(q[i] == j);
                } else {
                    assert(q.last() == j);
                }
            }
        }
        if has_view(q) && !(q.last() is View) {
            let i = choose|i: int| 0 <= i < q.len() && #[trigger] q[i] is View;
            assert(p[i] is View);
        }
        if has_view(without_views(q)) {
            let k = choose|k: int|
                0 <= k < without_views(q).len() && #[trigger] without_views(q)[k] is View;
            if k < w.len() {
                assert(w[k] is View);
            }
        }
    }
}

/// Where a request for display is waiting, no prefetch and no older request for display is left
/// behind, and no request for text is lost: only requests for text stay, in their order.
pub proof fn law_display_keeps_the_texts<T>(
    before: Seq<Job<T>>,
    step: Step<T>,
    after: Seq<Job<T>>,
    job: Job<T>,
)
    requires
        has_display(before),
        !has_quit(before),
        !has_reopen(before),
        pass(before, true, step, after),
    ensures
        step is Show,
        after == without_views(before),
        forall|i: int| 0 <= i < after.len() ==> #[trigger] after[i] is Text,
        job is Text ==> (after.contains(job) <==> before.contains(job)),
{
    lemma_without_views(before);
    assert forall|i: int| 0 <= i < after.len() implies #[trigger] after[i] is Text by {
        let j = after[i];
        assert(!(j is View));
        assert(after.contains(j));
        assert(before.contains(j));
        let k = choose|k: int| 0 <= k < before.len() && before[k] == j;
        assert(!(before[k] is Quit) && !(before[k] is Reopen));
    }
    if job is Text {
        assert(without_views(before).contains(job) <==> before.contains(job));
    }
}

/// A prefetch is carried out only where no request for display is waiting.
pub proof fn law_prefetch_only_without_display<T>(
    before: Seq<Job<T>>,
    open: bool,
    step: Step<T>,
    after: Seq<Job<T>>,
)
    requires
        pass(before, open, step, after),
        step is Prefetch,
    ensures
        !has_display(before),
{
}

/// The frame that is displayed is the one most recently asked for: no request for display that was
/// queued behind it is passed over.
pub proof fn law_newest_display_wins<T>(
    before: Seq<Job<T>>,
    older: ViewRequest<T>,
    older_seq: u64,
    newer: ViewRequest<T>,
    newer_seq: u64,
    step: Step<T>,
    after: Seq<Job<T>>,
)
    requires
        !has_quit(before),
        !has_reopen(before),
        pass(
            before.push(Job::View { req: older, for_display: true, seq: older_seq }).push(
                Job::View { req: newer, for_display: true, seq: newer_seq },
            ),
            true,
            step,
            after,
        ),
    ensures
        step == (Step::Show { req: newer, seq: newer_seq }),
        !has_view(after),
{
    let q = before.push(Job::View { req: older, for_display: true, seq: older_seq }).push(
        Job::View { req: newer, for_display: true, seq: newer_seq },
    );
    let n = before.len() as int;
    assert(forall|j: int| 0 <= j < n ==> q[j] == #[trigger] before[j]);
    assert(forall|j: int| 0 <= j < n ==> before[j] == #[trigger] q[j]);
    assert(q[n + 1].is_display());
    assert(newest_display(q, n + 1));
    assert(has_display(q));
    lemma_without_views(q);
}

/// With nothing but prefetches queued, they are carried out in the order in which they came.
pub proof fn law_prefetches_in_order<T>(before: Seq<Job<T>>, step: Step<T>, after: Seq<Job<T>>)
    requires
        before.len() > 0,
        forall|i: int| 0 <= i < before.len() ==> (#[trigger] before[i]).is_prefetch(),
        pass(before, true, step, after),
    ensures
        step == warming(before[0]),
        step is Prefetch,
        after == before.skip(1),
        forall|i: int| 0 <= i < after.len() ==> (#[trigger] after[i]).is_prefetch(),
{
    assert(before[0].is_prefetch());
    assert(before.remove(0) =~= before.skip(1));
}

/// Every pass over a queue that is not empty, short of ending the thread, makes it shorter.
pub proof fn law_pass_makes_progress<T>(
    before: Seq<Job<T>>,
    open: bool,
    step: Step<T>,
    after: Seq<Job<T>>,
)
    requires
        before.len() > 0,
        pass(before, open, step, after),
    ensures
        step is Quit || after.len() < before.len(),
{
    lemma_without_views(before);
}

/// A document that is opened again is asked for nothing that was queued before.
pub proof fn law_reopen_discards<T>(
    before: Seq<Job<T>>,
    open: bool,
    step: Step<T>,
    after: Seq<Job<T>>,
)
    requires
        has_reopen(before),
        !has_quit(before),
        pass(before, open, step, after),
    ensures
        step is Reopen,
        after.len() == 0,
{
}

/// The zoom and the center to draw a request with. `fitted` is what fitting the content gives,
/// `None` where the page has no content to fit; `page_center` is the center of the page.
pub fn view_of<T: Copy>(
    req: &ViewRequest<T>,
    fitted: Option<(u32, (T, T))>,
    page_center: (T, T),
) -> (r: (u32, (T, T)))
    ensures
        r == (if req.fit is Some && fitted is Some {
            fitted->0
        } else {
            (req.zoom, if req.center is Some { req.center->0 } else { page_center })
        }),
        req.fit is None || fitted is None ==> r.0 == req.zoom && (req.center matches Some(c) ==> r.1
            == c) && (req.center is None ==> r.1 == page_center),
        req.fit is Some ==> (fitted matches Some(f) ==> r == f),
{
    if req.fit.is_some() {
        if let Some(f) = fitted {
            return f;
        }
    }
    match req.center {
        Some(c) => (req.zoom, c),
        None => (req.zoom, page_center),
    }
}

/// The frame of a request: what was rasterized, with what was asked for.
pub fn finish_page<T: Copy>(
    req: &ViewRequest<T>,
    rgba: Vec<u8>,
    viewport: [T; 4],
    zoom: u32,
    for_display: bool,
    seq: u64,
) -> (r: RenderedPage<T>)
    ensures
        r == (RenderedPage {
            page: req.page,
            rgba,
            out_w: req.out_w,
            out_h: req.out_h,
            viewport,
            zoom,
            mtime: req.mtime,
            cacheable: req.cacheable,
            for_display,
            seq,
        }),
        r.page == req.page && r.out_w == req.out_w && r.out_h == req.out_h,
        r.mtime == req.mtime && r.cacheable == req.cacheable,
        r.rgba == rgba && r.viewport == viewport && r.zoom == zoom,
        r.for_display == for_display && r.seq == seq,
{
    RenderedPage {
        page: req.page,
        rgba,
        out_w: req.out_w,
        out_h: req.out_h,
        viewport,
        zoom,
        mtime: req.mtime,
        cacheable: req.cacheable,
        for_display,
        seq,
    }
}

/// Of the requests for display the last is carried out, with all that it asks for, and nothing but
/// requests for text stays, as it was.
pub proof fn law_last_display_is_carried_out<T>(
    before: Seq<Job<T>>,
    i: int,
    req: ViewRequest<T>,
    seq: u64,
    step: Step<T>,
    after: Seq<Job<T>>,
)
    requires
        pass(before, true, step, after),
        forall|j: int| 0 <= j < before.len() ==> !(#[trigger] before[j] is Quit || before[j] is Reopen),
        0 <= i < before.len(),
        before[i] == (Job::View { req, for_display: true, seq }),
        forall|j: int|
            i < j < before.len() ==> !(#[trigger] before[j] matches Job::View { for_display, .. }
                && for_display),
    ensures
        step == (Step::Show { req, seq }),
        forall|k: int| 0 <= k < after.len() ==> #[trigger] after[k] is Text,
{
    assert(before[i].is_display());
    assert(has_display(before));
    assert(newest_display(before, i));
    let k = choose|k: int| #[trigger] newest_display(before, k) && step == showing(before[k]);
    assert(k == i) by {
        if k < i {
            assert(!before[i].is_display());
        }
    }
    law_display_keeps_the_texts(before, step, after, before[i]);
}

/// Where no frame is to be displayed, the first request for text is carried out, and everything else
/// stays as it was.
pub proof fn law_first_text_is_read<T>(
    before: Seq<Job<T>>,
    i: int,
    page: usize,
    step: Step<T>,
    after: Seq<Job<T>>,
)
    requires
        pass(before, true, step, after),
        forall|j: int|
            0 <= j < before.len() ==> !(#[trigger] before[j] is Quit || before[j] is Reopen
                || before[j].is_display()),
        0 <= i < before.len(),
        before[i] == (Job::<T>::Text { page }),
        forall|j: int| 0 <= j < i ==> !(#[trigger] before[j] is Text),
    ensures
        step == (Step::<T>::Text { page }),
        after == before.take(i) + before.skip(i + 1),
{
    assert(oldest_text(before, i));
    assert(before[i] is Text);
    assert(has_text(before));
    let k = choose|k: int| #[trigger]
        oldest_text(before, k) && step == reading(before[k]) && after == before.remove(k);
    assert(k == i) by {
        if k < i {
            assert(!(before[k] is Text));
        } else if i < k {
            assert(!(before[i] is Text));
        }
    }
    assert(before.remove(i) =~= before.take(i) + before.skip(i + 1));
}

/// Where there are only prefetches, the first is carried out with all that it asks for, and never as
/// a frame to be displayed.
pub proof fn law_first_prefetch_is_carried_out<T>(
    before: Seq<Job<T>>,
    req: ViewRequest<T>,
    seq: u64,
    step: Step<T>,
    after: Seq<Job<T>>,
)
    requires
        pass(before, true, step, after),
        before.len() > 0,
        forall|j: int| 0 <= j < before.len() ==> (#[trigger] before[j]).is_prefetch(),
        before[0] == (Job::View { req, for_display: false, seq }),
    ensures
        step == (Step::Prefetch { req }),
        after == before.skip(1),
{
    law_prefetches_in_order(before, step, after);
}

/// A job that ends the thread comes before everything else. Without a document nothing is carried out
/// and nothing is kept, and without a job nothing is done.
pub proof fn law_ending_comes_first<T>(
    before: Seq<Job<T>>,
    open: bool,
    i: int,
    step: Step<T>,
    after: Seq<Job<T>>,
)
    requires
        pass(before, open, step, after),
    ensures
        0 <= i < before.len() && before[i] is Quit ==> step is Quit,
        step is Quit ==> exists|k: int| 0 <= k < before.len() && #[trigger] before[k] is Quit,
        step is Reopen ==> exists|k: int| 0 <= k < before.len() && #[trigger] before[k] is Reopen,
        !open && !(step is Quit) ==> after.len() == 0 && (step is Idle || step is Reopen),
        before.len() == 0 ==> step is Idle && after.len() == 0,
{
}

/// The jobs that ask for no frame stay one by one, in their order.
pub proof fn law_jobs_without_frames_stay<T>(q: Seq<Job<T>>, job: Job<T>)
    ensures
        !(job is View) ==> without_views(q.push(job)) == without_views(q).push(job),
        job is View ==> without_views(q.push(job)) == without_views(q),
        without_views(Seq::<Job<T>>::empty()).len() == 0,
{
    assert(q.push(job).drop_last() =~= q);
}

} // verus!
