use zolit::companion::{find_companion, index_markdown_files};

fn entries(v: &[(&str, &str)]) -> Vec<(String, String)> {
    v.iter().map(|(a, b)| (a.to_string(), b.to_string())).collect()
}

#[test]
fn companion_found_case_insensitively() {
    let index = index_markdown_files(&entries(&[("Smith2024.md", "/n/Smith2024.md")]));
    assert_eq!(find_companion("Smith2024", &index), Some("/n/Smith2024.md".to_string()));
    assert_eq!(find_companion("smith2024", &index), Some("/n/Smith2024.md".to_string()));
    assert_eq!(find_companion("nonexistent", &index), None);
}

#[test]
fn only_markdown_files_are_indexed() {
    let index = index_markdown_files(&entries(&[
        ("a.txt", "/n/a.txt"),
        (".md", "/n/.md"),
        ("b.md.bak", "/n/b.md.bak"),
        ("Wang2022.md", "/n/sub/Wang2022.md"),
    ]));
    assert_eq!(index, entries(&[("wang2022", "/n/sub/Wang2022.md")]));
}

#[test]
fn first_file_for_a_stem_wins() {
    let index = index_markdown_files(&entries(&[("Deep.md", "/one/Deep.md"), ("deep.md", "/two/deep.md")]));
    assert_eq!(index.len(), 1);
    assert_eq!(find_companion("DEEP", &index), Some("/one/Deep.md".to_string()));
}
