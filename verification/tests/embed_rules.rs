use tektite::chunker::chunk_note;
use tektite::embed::{
    first_hit_per_file, plan_chunk_reuse, snippet_from, take_next_job, EmbedJob, EmbedWorker, FakeEmbedder,
    KnnProgress, NoopProgress, Priority,
};
use tektite::markdown::parse;

fn job(id: &str, priority: Priority) -> EmbedJob {
    EmbedJob {
        file_id: id.to_string(),
        title: id.to_string(),
        note: parse("# H\nbody\n"),
        priority,
    }
}

#[test]
fn snippet_is_trimmed_and_cut_with_ellipsis() {
    assert_eq!(snippet_from("  short  "), "short");
    let long = "x".repeat(300);
    let s = snippet_from(&long);
    assert_eq!(s.chars().count(), 241);
    assert!(s.ends_with('\u{2026}'));
    assert_eq!(snippet_from(&"y".repeat(240)), "y".repeat(240));
}

#[test]
fn reuse_needs_same_position_and_hash() {
    let chunks = chunk_note("T", &parse("# A\nhello world example\n"));
    let hash = chunks[0].content_hash.clone();
    let old = vec![(1i64, hash.clone()), (0i64, "other".to_string()), (0i64, hash.clone())];
    assert_eq!(plan_chunk_reuse(&chunks, &old), vec![Some(2)]);
    let stale = vec![(0i64, "other".to_string())];
    assert_eq!(plan_chunk_reuse(&chunks, &stale), vec![None]);
}

#[test]
fn high_priority_jobs_run_first_then_in_submission_order() {
    let mut pending = vec![
        job("n0", Priority::Normal),
        job("n1", Priority::Normal),
        job("h0", Priority::High),
        job("n2", Priority::Normal),
        job("h1", Priority::High),
    ];
    let mut order = Vec::new();
    while !pending.is_empty() {
        order.push(take_next_job(&mut pending).file_id);
    }
    assert_eq!(order, vec!["h0", "h1", "n0", "n1", "n2"]);
}

#[test]
fn one_hit_per_file_in_rank_order() {
    let files: Vec<String> = ["a", "b", "a", "c", "b", "d"].iter().map(|s| s.to_string()).collect();
    assert_eq!(first_hit_per_file(&files, 10), vec![0, 1, 3, 5]);
    assert_eq!(first_hit_per_file(&files, 2), vec![0, 1]);
    assert_eq!(first_hit_per_file(&files, 0), Vec::<usize>::new());
}

#[test]
fn noop_progress_is_never_cancelled() {
    let mut p = NoopProgress;
    p.report(1, 2);
    assert!(!p.is_cancelled());
    let _e = FakeEmbedder::new();
}

#[test]
fn unchanged_note_reuses_every_stored_chunk() {
    let body = format!("# A\n{}\n\n# B\n{}\n", "alpha ".repeat(120), "beta ".repeat(120));
    let chunks = chunk_note("T", &parse(&body));
    assert!(chunks.len() >= 2);
    let old: Vec<(i64, String)> = chunks.iter().enumerate().map(|(i, c)| (i as i64, c.content_hash.clone())).collect();
    let plan = plan_chunk_reuse(&chunks, &old);
    let expected: Vec<Option<usize>> = (0..chunks.len()).map(Some).collect();
    assert_eq!(plan, expected);
}

#[test]
fn worker_counts_each_finished_job_once() {
    let mut worker = EmbedWorker::new();
    worker.receive(job("only", Priority::Normal));
    assert!(worker.has_pending());
    let taken = worker.next_job();
    assert_eq!(taken.file_id, "only");
    assert!(!worker.has_pending());
    let p = worker.job_finished(1);
    assert_eq!((p.done, p.total), (1, 1));
    assert_eq!(worker.finished_count(), 1);
}

#[test]
fn worker_takes_jobs_in_run_order() {
    let mut worker = EmbedWorker::new();
    for (id, pr) in [("n0", Priority::Normal), ("h0", Priority::High), ("n1", Priority::Normal), ("h1", Priority::High)] {
        worker.receive(job(id, pr));
    }
    let mut order = Vec::new();
    let mut last = None;
    while worker.has_pending() {
        order.push(worker.next_job().file_id);
        last = Some(worker.job_finished(4));
    }
    assert_eq!(order, vec!["h0", "h1", "n0", "n1"]);
    let last = last.unwrap();
    assert_eq!((last.done, last.total), (4, 4));
}

#[test]
fn mutual_pairs_are_kept_once_in_index_order() {
    let lists = vec![vec![1, 2], vec![0], vec![3], vec![2, 0]];
    assert_eq!(tektite::embed::mutual_pairs(&lists), vec![(0, 1), (2, 3)]);
    assert_eq!(tektite::embed::mutual_pairs(&vec![]), Vec::<(usize, usize)>::new());
}

#[test]
fn neighbour_count_defaults_and_clamps() {
    use_count(None, 4);
    use_count(Some(0), 1);
    use_count(Some(7), 7);
    use_count(Some(99), 16);
}

fn use_count(k: Option<u32>, expected: u32) {
    assert_eq!(tektite::embed::knn_neighbour_count(k), expected);
}
