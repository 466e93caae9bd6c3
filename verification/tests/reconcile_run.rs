use immich_album_sync::reconcile::{orphan_files, Asset, StepAction, SyncRun};

fn asset(id: &str, original_path: &str) -> Asset {
    Asset { id: String::from(id), original_path: String::from(original_path) }
}

fn strings(names: &[&str]) -> Vec<String> {
    names.iter().map(|n| String::from(*n)).collect()
}

/// Drives a run to completion, answering each fetch with the next outcome.
/// Returns the fetches that were asked for, in order.
fn drive(run: &mut SyncRun, outcomes: &[bool]) -> Vec<(String, String)> {
    let mut fetches: Vec<(String, String)> = Vec::new();
    let mut next: usize = 0;
    loop {
        match run.next_action() {
            StepAction::Done => break,
            StepAction::Skip { .. } => run.apply_skip(),
            StepAction::Fetch { asset_id, filename } => {
                fetches.push((asset_id, filename));
                run.apply_fetch_result(outcomes[next]);
                next += 1;
            }
        }
    }
    fetches
}

#[test]
fn empty_folder_downloads_everything() {
    // Remote: a1 with a ".png" path, a2 with no extension; local folder empty.
    let assets = vec![asset("a1", "x/1.png"), asset("a2", "y/2")];
    let marked = orphan_files(&assets, &Vec::new());
    assert!(marked.is_empty());

    let mut run = SyncRun::new(assets, Vec::new());
    let fetches = drive(&mut run, &[true, true]);
    assert_eq!(
        fetches,
        vec![
            (String::from("a1"), String::from("a1.png")),
            (String::from("a2"), String::from("a2.jpg")),
        ]
    );
    assert_eq!(run.new_count(), 2);
    assert_eq!(run.skip_count(), 0);
    assert_eq!(run.fail_count(), 0);
    assert_eq!(run.local_listing(), &strings(&["a1.png", "a2.jpg"]));
}

#[test]
fn orphan_deleted_and_present_file_skipped() {
    // Local: an orphan and a correctly named file; remote: only a1.
    let assets = vec![asset("a1", "x/1.png")];
    let local = strings(&["orphan.png", "a1.png"]);

    let marked = orphan_files(&assets, &local);
    assert_eq!(marked, strings(&["orphan.png"]));

    // The deletion succeeded, so the run starts from the kept files.
    let mut run = SyncRun::new(assets, strings(&["a1.png"]));
    let fetches = drive(&mut run, &[]);
    assert!(fetches.is_empty());
    assert_eq!(run.new_count(), 0);
    assert_eq!(run.skip_count(), 1);
    assert_eq!(run.fail_count(), 0);
}

#[test]
fn orphans_marked_whatever_their_extension() {
    let assets = vec![asset("a1", "x/1.png")];
    let local = strings(&["b.png", "b.jpg", "b", "b.tar.gz", "a1.heic"]);
    let marked = orphan_files(&assets, &local);
    // Every stem "b" file is marked; "a1.heic" has stem "a1" and stays, even
    // though its extension differs from the expected one.
    assert_eq!(marked, strings(&["b.png", "b.jpg", "b", "b.tar.gz"]));
}

#[test]
fn a_failed_download_does_not_stop_the_run() {
    let assets = vec![asset("a1", "p/1.png"), asset("a2", "p/2.png"), asset("a3", "p/3.png")];
    let mut run = SyncRun::new(assets, Vec::new());
    let fetches = drive(&mut run, &[true, false, true]);
    assert_eq!(fetches.len(), 3);
    assert_eq!(run.new_count(), 2);
    assert_eq!(run.skip_count(), 0);
    assert_eq!(run.fail_count(), 1);
    assert_eq!(run.new_count() + run.skip_count() + run.fail_count(), 3);
    // The failed asset's file is missing; the others were written.
    assert_eq!(run.local_listing(), &strings(&["a1.png", "a3.png"]));
}

#[test]
fn second_run_with_no_remote_changes_does_nothing() {
    let assets = vec![asset("a1", "x/1.png"), asset("a2", "y/2")];
    let mut first = SyncRun::new(assets, Vec::new());
    drive(&mut first, &[true, true]);
    let after_first = first.local_listing().clone();

    // Same remote album, local folder as the first run left it.
    let assets = vec![asset("a1", "x/1.png"), asset("a2", "y/2")];
    let marked = orphan_files(&assets, &after_first);
    assert!(marked.is_empty());
    let mut second = SyncRun::new(assets, after_first.clone());
    let fetches = drive(&mut second, &[]);
    assert!(fetches.is_empty());
    assert_eq!(second.new_count(), 0);
    assert_eq!(second.skip_count(), 2);
    assert_eq!(second.fail_count(), 0);
    assert_eq!(second.local_listing(), &after_first);
}

#[test]
fn final_stems_mirror_the_remote_identifiers() {
    // Mixed starting state: one orphan, one already synced file, one asset
    // still to fetch.
    let assets = vec![asset("a1", "x/1.png"), asset("a3", "z/3")];
    let local = strings(&["orphan.png", "a1.png"]);
    let marked = orphan_files(&assets, &local);
    assert_eq!(marked, strings(&["orphan.png"]));

    let mut run = SyncRun::new(assets, strings(&["a1.png"]));
    drive(&mut run, &[true]);
    assert_eq!(run.local_listing(), &strings(&["a1.png", "a3.jpg"]));
    let mut stems: Vec<String> = run
        .local_listing()
        .iter()
        .map(|n| n.split('.').next().unwrap_or("").to_string())
        .collect();
    stems.sort();
    assert_eq!(stems, strings(&["a1", "a3"]));
}

#[test]
fn duplicate_assets_with_the_same_name_download_once() {
    // Two remote assets that map to the same filename: the second sees the
    // file the first one just wrote and is skipped.
    let assets = vec![asset("a1", "x/1.png"), asset("a1", "y/1.png")];
    let mut run = SyncRun::new(assets, Vec::new());
    let fetches = drive(&mut run, &[true]);
    assert_eq!(fetches.len(), 1);
    assert_eq!(run.new_count(), 1);
    assert_eq!(run.skip_count(), 1);
    assert_eq!(run.fail_count(), 0);
}

#[test]
fn assets_differing_only_by_extension_are_independent() {
    let assets = vec![asset("a1", "x/1.png"), asset("a1", "y/1.heic")];
    let mut run = SyncRun::new(assets, Vec::new());
    let fetches = drive(&mut run, &[true, true]);
    assert_eq!(fetches.len(), 2);
    assert_eq!(run.local_listing(), &strings(&["a1.png", "a1.heic"]));
}

#[test]
fn empty_album_deletes_everything_and_downloads_nothing() {
    let assets: Vec<Asset> = Vec::new();
    let local = strings(&["a.png", "b"]);
    let marked = orphan_files(&assets, &local);
    assert_eq!(marked, local);

    let mut run = SyncRun::new(Vec::new(), Vec::new());
    let fetches = drive(&mut run, &[]);
    assert!(fetches.is_empty());
    assert_eq!(run.new_count() + run.skip_count() + run.fail_count(), 0);
}

#[test]
fn case_differences_are_not_matches() {
    // Exact stem equality only: a differently-cased local file is an orphan,
    // and the asset is downloaded again.
    let assets = vec![asset("a1", "x/1.png")];
    let local = strings(&["A1.png"]);
    let marked = orphan_files(&assets, &local);
    assert_eq!(marked, strings(&["A1.png"]));
}
