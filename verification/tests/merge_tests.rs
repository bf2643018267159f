use aviso_merge::ese;
use aviso_merge::install_aviso_content;

#[test]
fn bracket_appends_to_matching_section() {
    let merged = install_aviso_content(b"[X]\na\nb\n", b"[X]\nc\n");
    assert_eq!(merged, b"[X]\na\nb\nc\n".to_vec());
}

#[test]
fn bracket_adds_new_section_at_end() {
    let merged = install_aviso_content(b"[A]\n1\n", b"[B]\nz\n");
    assert_eq!(merged, b"[A]\n1\n[B]\nz\n".to_vec());
}

#[test]
fn bracket_preserves_local_order() {
    let merged = install_aviso_content(b"[A]\n[B]\n[C]\n", b"[B]\nx\n[A]\ny\n");
    assert_eq!(merged, b"[A]\ny\n[B]\nx\n[C]\n".to_vec());
}

#[test]
fn bracket_merge_twice_duplicates_lines() {
    let once = install_aviso_content(b"[X]\na\nb\n", b"[X]\nc\n");
    let twice = install_aviso_content(&once, b"[X]\nc\n");
    assert_eq!(twice, b"[X]\na\nb\nc\nc\n".to_vec());
}

#[test]
fn bracket_keeps_untouched_sections_with_blank_lines() {
    let merged = install_aviso_content(b"[K]\n1\n\n2\n", b"[L]\nw\n");
    assert_eq!(merged, b"[K]\n1\n\n2\n[L]\nw\n".to_vec());
}

#[test]
fn bracket_drops_lines_before_first_header() {
    let merged = install_aviso_content(b"junk\n[A]\nx\n", b"");
    assert_eq!(merged, b"[A]\nx\n".to_vec());
}

#[test]
fn bracket_normalises_missing_final_newline() {
    let merged = install_aviso_content(b"[A]\nx", b"");
    assert_eq!(merged, b"[A]\nx\n".to_vec());
}

#[test]
fn bracket_accepts_crlf_input() {
    let merged = install_aviso_content(b"[A]\r\nx\r\n", b"");
    assert_eq!(merged, b"[A]\nx\n".to_vec());
}

#[test]
fn bracket_reopened_section_collects_all_lines() {
    let merged = install_aviso_content(b"[A]\n1\n[B]\n2\n[A]\n3\n", b"");
    assert_eq!(merged, b"[A]\n1\n3\n[B]\n2\n".to_vec());
}

#[test]
fn bracket_empty_name_drops_following_lines() {
    let merged = install_aviso_content(b"[]\nxx\n", b"");
    assert_eq!(merged, b"[]\n".to_vec());
}

#[test]
fn bracket_empty_body_section_emits_header_only() {
    let merged = install_aviso_content(b"[E]\n", b"[E]\n");
    assert_eq!(merged, b"[E]\n".to_vec());
}

#[test]
fn header_replaces_matching_category_with_trimmed_content() {
    let merged = ese::install_content(
        b";====~~ LFFF ~~====;\nold line\n",
        b";==~~LFFF~~==;\n new stuff \n",
        b"LFFF",
    );
    assert_eq!(merged, b";====~~ LFFF ~~====;\nnew stuff\n".to_vec());
}

#[test]
fn header_composite_name_is_matched_by_part() {
    let merged = ese::install_content(
        b";==~~ LFFF/LFPG ~~==;\nold\n",
        b";==~~LFPG~~==;\nnew\n",
        b"LFPG",
    );
    assert_eq!(merged, b";==~~ LFFF/LFPG ~~==;\nnew\n".to_vec());
}

#[test]
fn header_appends_unmatched_category_after_blank_line() {
    let merged = ese::install_content(
        b";==~~AA~~==;\nbody\n",
        b";==~~BB~~==;\nnew\n",
        b"BB",
    );
    assert_eq!(merged, b";==~~AA~~==;\nbody\n\n;==~~BB~~==;\nnew\n".to_vec());
}

#[test]
fn header_keeps_preamble_and_other_categories() {
    let merged = ese::install_content(
        b"intro\n;=~~A~~=;\n1\n;=~~B~~=;\n2\n;=~~C~~=;\n3\n",
        b";=~~B~~=;\nQ\n",
        b"B",
    );
    assert_eq!(merged, b"intro\n;=~~A~~=;\n1\n;=~~B~~=;\nQ\n;=~~C~~=;\n3\n".to_vec());
}

#[test]
fn header_merge_into_empty_local() {
    let merged = ese::install_content(b"", b";=~~A~~=;\nx\n", b"A");
    assert_eq!(merged, b"\n;=~~A~~=;\nx\n".to_vec());
}

#[test]
fn header_applies_remote_categories_in_order() {
    let merged = ese::install_content(
        b";=~~A~~=;\nold\n",
        b";=~~A~~=;\nx\n;=~~B~~=;\ny\n",
        b"A",
    );
    assert_eq!(merged, b";=~~A~~=;\nx\n\n;=~~B~~=;\ny\n".to_vec());
}

#[test]
fn header_line_must_start_with_comment_marker() {
    let merged = ese::install_content(
        b"x;=~~A~~=;\nbody\n",
        b";=~~A~~=;\nnew\n",
        b"A",
    );
    assert_eq!(merged, b"x;=~~A~~=;\nbody\n\n;=~~A~~=;\nnew\n".to_vec());
}

#[test]
fn header_banner_with_trailing_spaces_is_kept_verbatim() {
    let merged = ese::install_content(
        b";=~~A~~=;   \nold\n",
        b";=~~A~~=;\nnew\n",
        b"A",
    );
    assert_eq!(merged, b";=~~A~~=;   \nnew\n".to_vec());
}

#[test]
fn header_append_keeps_existing_blank_line_single() {
    let merged = ese::install_content(
        b";==~~AA~~==;\nbody\n\n",
        b";==~~BB~~==;\nnew\n",
        b"BB",
    );
    assert_eq!(merged, b";==~~AA~~==;\nbody\n\n;==~~BB~~==;\nnew\n".to_vec());
}

#[test]
fn parsed_category_content_starts_at_banner_newline() {
    let cats = ese::parse_categories(b"x\n;==~~ A ~~==;\nbody\n");
    assert_eq!(cats.len(), 1);
    assert_eq!(cats[0].name, b"A".to_vec());
    assert_eq!(cats[0].header, b";==~~ A ~~==;".to_vec());
    assert_eq!(cats[0].content, b"\nbody\n".to_vec());
}

#[test]
fn parsed_categories_partition_text_from_first_banner() {
    let text = b"pre\n;=~~A~~=;\n1\n2\n;=~~B~~=;\n3\n";
    let cats = ese::parse_categories(text);
    let mut rebuilt: Vec<u8> = Vec::new();
    for cat in &cats {
        rebuilt.extend_from_slice(&cat.header);
        rebuilt.extend_from_slice(&cat.content);
    }
    assert_eq!(rebuilt, b";=~~A~~=;\n1\n2\n;=~~B~~=;\n3\n".to_vec());
}

#[test]
fn header_remote_without_banners_changes_nothing() {
    let merged = ese::install_content(b";=~~A~~=;\nold\n", b"no banners here\n", b"A");
    assert_eq!(merged, b";=~~A~~=;\nold\n".to_vec());
}

#[test]
fn header_remote_preamble_is_ignored() {
    let merged = ese::install_content(
        b";=~~A~~=;\nold\n",
        b"stray text\n;=~~A~~=;\nnew\n",
        b"A",
    );
    assert_eq!(merged, b";=~~A~~=;\nnew\n".to_vec());
}

#[test]
fn header_name_may_contain_a_single_tilde() {
    let merged = ese::install_content(
        b";=~~A~B~~=;\nold\n",
        b";=~~A~B~~=;\nnew\n",
        b"A",
    );
    assert_eq!(merged, b";=~~A~B~~=;\nnew\n".to_vec());
}

#[test]
fn header_banner_needs_closing_equals_run() {
    let merged = ese::install_content(
        b";=~~A~~;\nbody\n",
        b";=~~A~~=;\nnew\n",
        b"A",
    );
    assert_eq!(merged, b";=~~A~~;\nbody\n\n;=~~A~~=;\nnew\n".to_vec());
}

#[test]
fn header_category_hint_is_ignored() {
    let a = ese::install_content(b";=~~A~~=;\nold\n", b";=~~A~~=;\nnew\n", b"A");
    let b = ese::install_content(b";=~~A~~=;\nold\n", b";=~~A~~=;\nnew\n", b"unrelated");
    assert_eq!(a, b);
}
