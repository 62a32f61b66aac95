use vecview::worker::{finish_page, view_of, Fit, Job, JobQueue, RenderWorker, Step, ViewRequest};

fn req(page: usize) -> ViewRequest<i32> {
    ViewRequest {
        page,
        zoom: 100,
        center: None,
        fit: None,
        out_w: 8,
        out_h: 6,
        mtime: 7,
        cacheable: true,
    }
}

fn text_of(step: &Step<i32>) -> String {
    match step {
        Step::Idle => "idle".to_string(),
        Step::Quit => "quit".to_string(),
        Step::Reopen => "reopen".to_string(),
        Step::Show { req, seq } => format!("show {} #{seq}", req.page),
        Step::Text { page } => format!("text {page}"),
        Step::Prefetch { req } => format!("prefetch {}", req.page),
    }
}

fn steps(jobs: Vec<Job<i32>>, open: bool) -> Vec<String> {
    let mut q = JobQueue::new();
    for j in jobs {
        q.push(j);
    }
    let mut out = Vec::new();
    while !q.is_empty() {
        let step = text_of(&q.next(open));
        out.push(step);
        if out.len() > 20 || out.last().unwrap() == "quit" {
            break;
        }
    }
    out
}

#[test]
fn requests_for_display_are_numbered() {
    let mut w = RenderWorker::new();
    let (first, _) = w.show(req(1));
    let (second, job) = w.show(req(2));
    assert_eq!((first, second), (1, 2));
    assert!(matches!(job, Job::View { for_display: true, seq: 2, .. }));
    assert!(matches!(w.prefetch(req(3)), Job::View { for_display: false, seq: 0, .. }));
}

#[test]
fn newest_request_for_display_comes_first() {
    let mut w = RenderWorker::new();
    let jobs = vec![
        w.prefetch(req(5)),
        w.show(req(1)).1,
        w.text(4),
        w.prefetch(req(6)),
        w.show(req(2)).1,
    ];
    assert_eq!(steps(jobs, true), vec!["show 2 #2", "text 4"]);
}

#[test]
fn prefetch_is_dropped_where_a_display_is_waiting() {
    let mut w = RenderWorker::new();
    let jobs = vec![w.show(req(1)).1, w.prefetch(req(2))];
    assert_eq!(steps(jobs, true), vec!["show 1 #1"]);
    let jobs = vec![w.prefetch(req(2)), w.text(7), w.prefetch(req(3))];
    assert_eq!(steps(jobs, true), vec!["text 7", "prefetch 2", "prefetch 3"]);
}

#[test]
fn reopening_discards_what_was_queued() {
    let mut w = RenderWorker::new();
    let jobs = vec![w.show(req(1)).1, w.reopen(), w.prefetch(req(2)), w.text(1)];
    assert_eq!(steps(jobs, true), vec!["reopen"]);
}

#[test]
fn quitting_comes_before_everything() {
    let mut w = RenderWorker::new();
    let jobs = vec![w.show(req(1)).1, w.reopen(), Job::Quit];
    assert_eq!(steps(jobs, true), vec!["quit"]);
}

#[test]
fn closed_document_is_asked_for_nothing() {
    let mut w = RenderWorker::new();
    let jobs = vec![w.show(req(1)).1, w.text(3), w.prefetch(req(2))];
    let done = steps(jobs, false);
    assert!(done.len() <= 3);
    assert!(done.iter().all(|s| s == "idle"));
}

#[test]
fn empty_queue_is_idle() {
    let mut q: JobQueue<i32> = JobQueue::new();
    assert!(matches!(q.next(true), Step::Idle));
}

#[test]
fn fitting_overrides_zoom_and_center() {
    let plain = req(1);
    assert_eq!(view_of(&plain, Some((300, (9, 9))), (4, 3)), (100, (4, 3)));
    let placed = ViewRequest { center: Some((1, 2)), ..plain };
    assert_eq!(view_of(&placed, None, (4, 3)), (100, (1, 2)));
    let fitted = ViewRequest { fit: Some(Fit::Width), ..placed };
    assert_eq!(view_of(&fitted, Some((300, (9, 9))), (4, 3)), (300, (9, 9)));
    assert_eq!(view_of(&fitted, None, (4, 3)), (100, (1, 2)));
}

#[test]
fn frame_carries_what_was_asked_for() {
    let f = finish_page(&req(3), vec![1, 2], [1, 2, 3, 4], 250, true, 9);
    assert_eq!((f.page, f.out_w, f.out_h, f.mtime, f.zoom, f.seq), (3, 8, 6, 7, 250, 9));
    assert!(f.cacheable && f.for_display);
    assert_eq!((f.rgba, f.viewport), (vec![1, 2], [1, 2, 3, 4]));
}
