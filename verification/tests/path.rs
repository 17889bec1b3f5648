use mega_dl::download::{dir_to_create, entry_paths, target_paths};
use mega_dl::path::{collected, components_of, file_name_of, joined, parent_of, state_path, without_first};
use std::path::{Component, Path, PathBuf};

/// All texts of up to five characters over a small alphabet.
fn texts() -> Vec<String> {
    let alphabet = ['/', '.', 'a', '\u{e9}'];
    let mut all = vec![String::new()];
    let mut from = 0;
    for _ in 0..5 {
        let to = all.len();
        for i in from..to {
            for c in alphabet {
                let mut t = all[i].clone();
                t.push(c);
                all.push(t);
            }
        }
        from = to;
    }
    all
}

fn text(p: &Path) -> String {
    p.to_str().unwrap().to_owned()
}

fn std_state_path(part: &str) -> String {
    let mut p = Path::new(part).to_path_buf();
    let name = p.file_name().unwrap_or_default().to_string_lossy().to_string();
    p.set_file_name(format!("{name}.meta"));
    text(&p)
}

#[test]
fn components_are_those_of_std() {
    for t in texts() {
        let expected: Vec<String> = Path::new(&t)
            .components()
            .map(|c| c.as_os_str().to_str().unwrap().to_owned())
            .collect();
        assert_eq!(components_of(&t), expected, "{t:?}");
    }
}

#[test]
fn file_names_are_those_of_std() {
    for t in texts() {
        let expected = Path::new(&t).file_name().map(|n| n.to_str().unwrap());
        assert_eq!(file_name_of(&t), expected, "{t:?}");
    }
}

#[test]
fn parents_are_those_of_std() {
    for t in texts() {
        let expected = Path::new(&t).parent().map(|p| p.to_str().unwrap());
        assert_eq!(parent_of(&t), expected, "{t:?}");
    }
}

#[test]
fn paths_join_as_in_std() {
    let some: Vec<String> = texts().into_iter().filter(|t| t.len() <= 3).collect();
    for a in &some {
        for b in &some {
            assert_eq!(joined(a, b), text(&Path::new(a).join(b)), "{a:?} {b:?}");
        }
    }
}

#[test]
fn the_first_component_is_dropped_as_in_std() {
    for t in texts() {
        let p = PathBuf::from(&t);
        let parts: Vec<Component> = p.components().collect();
        let expected: PathBuf = if parts.len() > 1 {
            parts[1..].iter().collect()
        } else {
            p.clone()
        };
        assert_eq!(without_first(&t), text(&expected), "{t:?}");
    }
}

#[test]
fn progress_paths_are_those_of_std() {
    for t in texts() {
        assert_eq!(state_path(&t), std_state_path(&t), "{t:?}");
    }
}

#[test]
fn progress_stands_beside_the_file() {
    for t in texts() {
        if let Some(name) = file_name_of(&t) {
            let state = state_path(&t);
            let meta = format!("{name}.meta");
            assert_eq!(parent_of(&state), parent_of(&t), "{t:?}");
            assert_eq!(file_name_of(&state), Some(meta.as_str()), "{t:?}");
        }
    }
    // Where there is no file name, it stands below in place of beside.
    assert_eq!(state_path("a/.."), "a/../.meta");
    assert_eq!(parent_of("a/../.meta"), Some("a/.."));
}

#[test]
fn a_name_put_behind_a_directory_comes_off_again() {
    for dir in texts() {
        let p = joined(&dir, "name.x");
        assert_eq!(file_name_of(&p), Some("name.x"), "{dir:?}");
        assert_eq!(parent_of(&p), Path::new(&p).parent().map(|d| d.to_str().unwrap()));
    }
    assert_eq!(parent_of(&joined("a/./", "n")), Some("a"));
}

#[test]
fn a_file_goes_to_three_paths() {
    let t = target_paths(".", "movie.mkv");
    assert_eq!(t.name, "movie.mkv");
    assert_eq!(t.part, "./movie.mkv.part");
    assert_eq!(t.complete, "./movie.mkv");
    assert_eq!(t.state, "./movie.mkv.part.meta");
}

#[test]
fn the_part_is_the_complete_path_with_more_behind_it() {
    for dir in ["", ".", "a", "a/", "/", "a//b"] {
        for name in ["", "n", "/n", "x/y", ".."] {
            let t = target_paths(dir, name);
            assert_eq!(t.part, format!("{}.part", t.complete));
        }
    }
}

#[test]
fn an_entry_goes_to_its_directory() {
    let t = entry_paths("sub/dir/f.bin");
    assert_eq!(t.name, "f.bin");
    assert_eq!(t.part, "sub/dir/f.bin.part");
    assert_eq!(t.complete, "sub/dir/f.bin");
    assert_eq!(t.state, "sub/dir/f.bin.part.meta");
    assert_eq!(dir_to_create("sub/dir/f.bin"), Some("sub/dir"));
    let t = entry_paths("f.bin");
    assert_eq!(t.part, "./f.bin.part");
    assert_eq!(t.complete, "./f.bin");
    assert_eq!(dir_to_create("f.bin"), None);
    let t = entry_paths("");
    assert_eq!(t.name, "");
    assert_eq!(t.part, "./.part");
    assert_eq!(t.complete, "./");
    assert_eq!(dir_to_create("/"), None);
    assert_eq!(dir_to_create("/f"), Some("/"));
}

#[test]
fn no_two_files_share_their_progress() {
    let some: Vec<String> =
        texts().into_iter().filter(|t| t.len() <= 4 && file_name_of(t).is_some()).collect();
    for a in &some {
        assert_ne!(Path::new(&state_path(a)), Path::new(a));
        for b in &some {
            let same_state = Path::new(&state_path(a)) == Path::new(&state_path(b));
            assert_eq!(same_state, Path::new(a) == Path::new(b), "{a:?} {b:?}");
        }
    }
}

#[test]
fn names_are_put_together_as_in_std() {
    let some: Vec<String> = texts().into_iter().filter(|t| t.len() <= 2).collect();
    for a in &some {
        for b in &some {
            let names = vec![a.clone(), b.clone(), "c".to_owned()];
            let expected: PathBuf = names.iter().collect();
            assert_eq!(collected(&names), text(&expected));
        }
    }
    assert_eq!(collected(&vec![]), "");
}
