use talkcody::windows::{build_window_title, FileWatcher, WindowRegistry, WindowState};

#[test]
fn test_window_registry_new() {
    let registry = WindowRegistry::new();
    let windows = registry.get_all_windows().unwrap();
    assert!(windows.is_empty());
}

#[test]
fn test_register_window() {
    let mut registry = WindowRegistry::new();

    let state = WindowState {
        project_id: Some("project-1".to_string()),
        root_path: Some("/path/to/project".to_string()),
        file_watcher: None,
    };

    let result = registry.register_window("window-1".to_string(), state);
    assert!(result.is_ok());

    let windows = registry.get_all_windows().unwrap();
    assert_eq!(windows.len(), 1);
    assert_eq!(windows[0].label, "window-1");
    assert_eq!(windows[0].project_id, Some("project-1".to_string()));
    assert_eq!(windows[0].root_path, Some("/path/to/project".to_string()));
}

#[test]
fn test_unregister_window() {
    let mut registry = WindowRegistry::new();

    let state = WindowState {
        project_id: Some("project-1".to_string()),
        root_path: Some("/path/to/project".to_string()),
        file_watcher: None,
    };

    registry
        .register_window("window-1".to_string(), state)
        .unwrap();
    assert_eq!(registry.get_all_windows().unwrap().len(), 1);

    let result = registry.unregister_window("window-1");
    assert!(result.is_ok());
    assert!(registry.get_all_windows().unwrap().is_empty());
}

#[test]
fn test_unregister_nonexistent_window() {
    let mut registry = WindowRegistry::new();

    let result = registry.unregister_window("nonexistent");
    assert!(result.is_ok());
}

#[test]
fn test_find_window_by_project() {
    let mut registry = WindowRegistry::new();

    let state1 = WindowState {
        project_id: Some("project-1".to_string()),
        root_path: Some("/path/to/project1".to_string()),
        file_watcher: None,
    };

    let state2 = WindowState {
        project_id: Some("project-2".to_string()),
        root_path: Some("/path/to/project2".to_string()),
        file_watcher: None,
    };

    registry
        .register_window("window-1".to_string(), state1)
        .unwrap();
    registry
        .register_window("window-2".to_string(), state2)
        .unwrap();

    let found = registry
        .find_window_by_project("/path/to/project1")
        .unwrap();
    assert_eq!(found, Some("window-1".to_string()));

    let found = registry
        .find_window_by_project("/path/to/project2")
        .unwrap();
    assert_eq!(found, Some("window-2".to_string()));

    let not_found = registry.find_window_by_project("/path/to/unknown").unwrap();
    assert!(not_found.is_none());
}

#[test]
fn test_update_window_project() {
    let mut registry = WindowRegistry::new();

    let state = WindowState {
        project_id: Some("old-project".to_string()),
        root_path: Some("/old/path".to_string()),
        file_watcher: None,
    };

    registry
        .register_window("window-1".to_string(), state)
        .unwrap();

    registry
        .update_window_project(
            "window-1",
            Some("new-project".to_string()),
            Some("/new/path".to_string()),
        )
        .unwrap();

    let windows = registry.get_all_windows().unwrap();
    assert_eq!(windows[0].project_id, Some("new-project".to_string()));
    assert_eq!(windows[0].root_path, Some("/new/path".to_string()));
}

#[test]
fn test_update_nonexistent_window() {
    let mut registry = WindowRegistry::new();

    let result = registry.update_window_project(
        "nonexistent",
        Some("project".to_string()),
        Some("/path".to_string()),
    );
    assert!(result.is_ok());
}

#[test]
fn test_multiple_windows() {
    let mut registry = WindowRegistry::new();

    for i in 0..5 {
        let state = WindowState {
            project_id: Some(format!("project-{}", i)),
            root_path: Some(format!("/path/to/project{}", i)),
            file_watcher: None,
        };
        registry
            .register_window(format!("window-{}", i), state)
            .unwrap();
    }

    let windows = registry.get_all_windows().unwrap();
    assert_eq!(windows.len(), 5);
}

#[test]
fn test_get_all_windows_title_fallback() {
    let mut registry = WindowRegistry::new();

    let state_with_path = WindowState {
        project_id: None,
        root_path: Some("/path/to/project".to_string()),
        file_watcher: None,
    };
    registry
        .register_window("window-1".to_string(), state_with_path)
        .unwrap();

    let state_without_path = WindowState {
        project_id: None,
        root_path: None,
        file_watcher: None,
    };
    registry
        .register_window("window-2".to_string(), state_without_path)
        .unwrap();

    let windows = registry.get_all_windows().unwrap();
    assert_eq!(windows.len(), 2);

    for window in &windows {
        if window.label == "window-1" {
            assert_eq!(window.title, "project - TalkCody");
        } else if window.label == "window-2" {
            assert_eq!(window.title, "TalkCody");
        }
    }
}

#[test]
fn test_build_window_title() {
    assert_eq!(
        build_window_title(Some(&"/path/to/myproject".to_string())),
        "myproject - TalkCody"
    );

    assert_eq!(build_window_title(None), "TalkCody");

    assert_eq!(
        build_window_title(Some(&"/Users/kks/mygit/talkcody".to_string())),
        "talkcody - TalkCody"
    );

    assert_eq!(
        build_window_title(Some(&"project".to_string())),
        "project - TalkCody"
    );

    assert_eq!(build_window_title(Some(&"/".to_string())), "TalkCody");
}

#[test]
fn test_cleanup_all_watchers_empty_registry() {
    let mut registry = WindowRegistry::new();
    registry.cleanup_all_watchers();
}

#[test]
fn test_cleanup_all_watchers_no_watchers() {
    let mut registry = WindowRegistry::new();

    for i in 0..3 {
        let state = WindowState {
            project_id: Some(format!("project-{}", i)),
            root_path: Some(format!("/path/{}", i)),
            file_watcher: None,
        };
        registry
            .register_window(format!("window-{}", i), state)
            .unwrap();
    }

    registry.cleanup_all_watchers();

    let windows = registry.get_all_windows().unwrap();
    assert_eq!(windows.len(), 3);
}

#[test]
fn test_cleanup_all_watchers_with_watchers() {
    let mut registry = WindowRegistry::new();

    for i in 0..3 {
        let watcher = FileWatcher::new().ok();
        let state = WindowState {
            project_id: Some(format!("project-{}", i)),
            root_path: Some(format!("/path/{}", i)),
            file_watcher: watcher,
        };
        registry
            .register_window(format!("window-{}", i), state)
            .unwrap();
    }

    registry.cleanup_all_watchers();

    let windows = registry.get_all_windows().unwrap();
    assert_eq!(windows.len(), 3);
}

#[test]
fn test_cleanup_all_watchers_is_idempotent() {
    let mut registry = WindowRegistry::new();

    for i in 0..2 {
        let watcher = FileWatcher::new().ok();
        let state = WindowState {
            project_id: Some(format!("project-{}", i)),
            root_path: Some(format!("/path/{}", i)),
            file_watcher: watcher,
        };
        registry
            .register_window(format!("window-{}", i), state)
            .unwrap();
    }

    registry.cleanup_all_watchers();
    registry.cleanup_all_watchers();
    registry.cleanup_all_watchers();
}

#[test]
fn test_set_window_file_watcher_then_cleanup() {
    let mut registry = WindowRegistry::new();

    let state = WindowState {
        project_id: Some("project-1".to_string()),
        root_path: Some("/path/1".to_string()),
        file_watcher: None,
    };
    registry
        .register_window("window-1".to_string(), state)
        .unwrap();

    let watcher = FileWatcher::new().unwrap();
    registry
        .set_window_file_watcher("window-1", Some(watcher))
        .unwrap();

    registry.cleanup_all_watchers();

    let windows = registry.get_all_windows().unwrap();
    assert_eq!(windows.len(), 1);
}

#[test]
fn test_multiple_windows_have_independent_watchers() {
    let mut registry = WindowRegistry::new();

    for i in 0..3 {
        let state = WindowState {
            project_id: Some(format!("project-{}", i)),
            root_path: Some(format!("/path/to/project{}", i)),
            file_watcher: None,
        };
        registry
            .register_window(format!("window-{}", i), state)
            .unwrap();

        let watcher = FileWatcher::new().unwrap();
        registry
            .set_window_file_watcher(&format!("window-{}", i), Some(watcher))
            .unwrap();
    }

    let windows = registry.get_all_windows().unwrap();
    assert_eq!(windows.len(), 3);
}

#[test]
fn test_setting_watcher_for_one_window_does_not_affect_others() {
    let mut registry = WindowRegistry::new();

    for i in 0..2 {
        let state = WindowState {
            project_id: Some(format!("project-{}", i)),
            root_path: Some(format!("/path/{}", i)),
            file_watcher: None,
        };
        registry
            .register_window(format!("window-{}", i), state)
            .unwrap();

        let watcher = FileWatcher::new().unwrap();
        registry
            .set_window_file_watcher(&format!("window-{}", i), Some(watcher))
            .unwrap();
    }

    let new_watcher = FileWatcher::new().unwrap();
    registry
        .set_window_file_watcher("window-0", Some(new_watcher))
        .unwrap();

    let windows = registry.get_all_windows().unwrap();
    assert_eq!(windows.len(), 2);
}

#[test]
fn test_unregister_window_stops_its_watcher() {
    let mut registry = WindowRegistry::new();

    let state = WindowState {
        project_id: Some("project-1".to_string()),
        root_path: Some("/path/1".to_string()),
        file_watcher: None,
    };
    registry
        .register_window("window-1".to_string(), state)
        .unwrap();

    let watcher = FileWatcher::new().unwrap();
    registry
        .set_window_file_watcher("window-1", Some(watcher))
        .unwrap();

    registry.unregister_window("window-1").unwrap();

    let windows = registry.get_all_windows().unwrap();
    assert!(windows.is_empty());
}

#[test]
fn test_replace_watcher_stops_old_watcher() {
    let mut registry = WindowRegistry::new();

    let state = WindowState {
        project_id: Some("project-1".to_string()),
        root_path: Some("/path/1".to_string()),
        file_watcher: None,
    };
    registry
        .register_window("window-1".to_string(), state)
        .unwrap();

    let watcher1 = FileWatcher::new().unwrap();
    registry
        .set_window_file_watcher("window-1", Some(watcher1))
        .unwrap();

    let watcher2 = FileWatcher::new().unwrap();
    registry
        .set_window_file_watcher("window-1", Some(watcher2))
        .unwrap();

    let watcher3 = FileWatcher::new().unwrap();
    registry
        .set_window_file_watcher("window-1", Some(watcher3))
        .unwrap();

    let windows = registry.get_all_windows().unwrap();
    assert_eq!(windows.len(), 1);
}

#[test]
fn test_clear_watcher_by_setting_none() {
    let mut registry = WindowRegistry::new();

    let state = WindowState {
        project_id: Some("project-1".to_string()),
        root_path: Some("/path/1".to_string()),
        file_watcher: None,
    };
    registry
        .register_window("window-1".to_string(), state)
        .unwrap();

    let watcher = FileWatcher::new().unwrap();
    registry
        .set_window_file_watcher("window-1", Some(watcher))
        .unwrap();

    registry.set_window_file_watcher("window-1", None).unwrap();

    let windows = registry.get_all_windows().unwrap();
    assert_eq!(windows.len(), 1);
}

#[test]
fn test_multiple_windows_with_different_projects() {
    let mut registry = WindowRegistry::new();

    let state1 = WindowState {
        project_id: Some("talkcody".to_string()),
        root_path: Some("/Users/kks/mygit/talkcody".to_string()),
        file_watcher: None,
    };
    registry
        .register_window("window-talkcody".to_string(), state1)
        .unwrap();
    let watcher1 = FileWatcher::new().unwrap();
    registry
        .set_window_file_watcher("window-talkcody", Some(watcher1))
        .unwrap();

    let state2 = WindowState {
        project_id: Some("trader".to_string()),
        root_path: Some("/Users/kks/mygit/trader".to_string()),
        file_watcher: None,
    };
    registry
        .register_window("window-trader".to_string(), state2)
        .unwrap();
    let watcher2 = FileWatcher::new().unwrap();
    registry
        .set_window_file_watcher("window-trader", Some(watcher2))
        .unwrap();

    let windows = registry.get_all_windows().unwrap();
    assert_eq!(windows.len(), 2);

    let talkcody_window = windows.iter().find(|w| w.label == "window-talkcody");
    let trader_window = windows.iter().find(|w| w.label == "window-trader");

    assert!(talkcody_window.is_some());
    assert!(trader_window.is_some());
    assert_eq!(
        talkcody_window.unwrap().root_path,
        Some("/Users/kks/mygit/talkcody".to_string())
    );
    assert_eq!(
        trader_window.unwrap().root_path,
        Some("/Users/kks/mygit/trader".to_string())
    );
}
