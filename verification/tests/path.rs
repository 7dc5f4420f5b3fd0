//! Slash-separated paths, held against `std::path`.

use std::path::Path;

use thor::path::{basename, count_path_components};

/// Every text of up to `max` characters of `alphabet`.
fn texts(alphabet: &[char], max: usize) -> Vec<String> {
    let mut all = vec![String::new()];
    let mut last = vec![String::new()];
    for _ in 0..max {
        let mut next = Vec::new();
        for s in &last {
            for c in alphabet {
                let mut t = s.clone();
                t.push(*c);
                next.push(t);
            }
        }
        all.extend(next.iter().cloned());
        last = next;
    }
    all
}

#[test]
fn component_counts_agree_with_std() {
    for s in texts(&['a', '.', '/'], 7) {
        let want = Path::new(&s).components().count();
        assert_eq!(count_path_components(s.as_bytes()), want, "{s:?}");
    }
}

#[test]
fn basenames_agree_with_std() {
    for s in texts(&['a', '.', '/'], 7) {
        let want = Path::new(&s).file_name().and_then(|n| n.to_str()).unwrap_or(&s);
        assert_eq!(basename(&s), want, "{s:?}");
    }
}

#[test]
fn basename_of_a_firmware_path() {
    assert_eq!(basename("/tmp/fw/boot.img.lz4"), "boot.img.lz4");
    assert_eq!(basename("AP file.tar"), "AP file.tar");
    assert_eq!(basename(".."), "..");
}
