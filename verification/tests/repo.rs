use orrient::repo::{BHAPIEvent, DownloadablePacks, RefreshState, RepoPack, RepoPackId};

fn pack(name: &str) -> RepoPack {
    RepoPack {
        name: name.to_string(),
        description: String::new(),
        download: format!("https://example.invalid/{name}.taco"),
        info: String::new(),
        file_name: format!("{name}.taco"),
        categories: String::new(),
        version: None,
        size: 1.5f32.to_bits(),
        total_downloads: 3,
        author_name: String::new(),
        author_username: String::new(),
        last_update: String::new(),
    }
}

#[test]
fn refresh_is_queued_from_any_state_and_downloads_leave_it() {
    for s in [RefreshState::Idle, RefreshState::Queued, RefreshState::WaitingForResponse] {
        assert_eq!(s.on_event(BHAPIEvent::Refresh), RefreshState::Queued);
        assert_eq!(s.on_event(BHAPIEvent::Download(RepoPackId(0))), s);
    }
    assert_eq!(RefreshState::default(), RefreshState::Idle);
}

#[test]
fn an_answer_replaces_the_offered_packs() {
    let mut packs = DownloadablePacks::new();
    assert!(packs.get(RepoPackId(0)).is_none());
    packs.replace_all(vec![pack("a"), pack("b")]);
    assert_eq!(packs.len(), 2);
    assert_eq!(packs.get(RepoPackId(1)).unwrap().name, "b");
    packs.replace_all(vec![pack("c")]);
    assert_eq!(packs.len(), 1);
    assert_eq!(packs.get(RepoPackId(0)).unwrap().file_name, "c.taco");
    assert!(packs.get(RepoPackId(1)).is_none());
}
