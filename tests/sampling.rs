use corpus_gen::{gen_corpus_data, sample, seed};

fn numbered_lines(n: usize) -> Vec<String> {
    (0..n).map(|i| format!("line number {}", i)).collect()
}

#[test]
fn seed_hashes_secret_then_user() {
    let expected: [u8; 32] = [
        115, 18, 253, 174, 97, 132, 224, 149, 108, 236, 22, 251, 148, 181, 127, 190, 129, 228, 122, 0, 204, 147,
        212, 166, 72, 8, 92, 248, 65, 167, 61, 175,
    ];
    assert_eq!(seed("user", "key"), expected);
}

#[test]
fn seed_depends_on_argument_order() {
    assert_ne!(seed("user", "key"), seed("key", "user"));
    assert_eq!(seed("ab", "c"), seed("ab", "c"));
}

#[test]
fn sample_output_is_reproducible() {
    let lines = numbered_lines(200);
    let a = gen_corpus_data("2021", &lines, "alice", 25);
    let b = gen_corpus_data("2021", &lines, "alice", 25);
    assert_eq!(a, b);
}

#[test]
fn sample_output_depends_on_user() {
    let lines = numbered_lines(500);
    let a = gen_corpus_data("2021", &lines, "alice", 20);
    let b = gen_corpus_data("2021", &lines, "bob", 20);
    assert_ne!(a, b);
}

#[test]
fn sample_output_depends_on_secret() {
    let lines = numbered_lines(500);
    let a = gen_corpus_data("2021", &lines, "alice", 20);
    let b = gen_corpus_data("2022", &lines, "alice", 20);
    assert_ne!(a, b);
}

#[test]
fn sample_indices_are_valid() {
    let idx = sample("s", 100, "u", 30);
    assert_eq!(idx.len(), 30);
    for w in idx.windows(2) {
        assert!(w[0] < w[1]);
    }
    assert!(idx.iter().all(|&i| i < 100));
}

#[test]
fn oversized_sample_takes_every_line() {
    let idx = sample("s", 7, "u", 50);
    assert_eq!(idx, vec![0, 1, 2, 3, 4, 5, 6]);
    let lines = numbered_lines(3);
    let out = gen_corpus_data("s", &lines, "u", 10);
    assert_eq!(out, "line number 0\nline number 1\nline number 2\n");
}

#[test]
fn empty_sample_and_empty_corpus() {
    assert!(sample("s", 10, "u", 0).is_empty());
    assert!(sample("s", 0, "u", 5).is_empty());
    let lines = numbered_lines(10);
    assert_eq!(gen_corpus_data("s", &lines, "u", 0), "");
    assert_eq!(gen_corpus_data("s", &Vec::new(), "u", 4), "");
}

#[test]
fn emitted_lines_follow_file_order() {
    let lines = numbered_lines(300);
    let size = 40;
    let out = gen_corpus_data("k", &lines, "carol", size);
    let idx = sample("k", lines.len(), "carol", size);
    let expected: String = idx.iter().map(|&i| format!("{}\n", lines[i])).collect();
    assert_eq!(out, expected);
    assert_eq!(out.lines().count(), size);
    let positions: Vec<usize> = out.lines().map(|l| lines.iter().position(|x| x == l).unwrap()).collect();
    for w in positions.windows(2) {
        assert!(w[0] < w[1]);
    }
}
