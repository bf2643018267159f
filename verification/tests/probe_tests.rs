use aviso_merge::category_hint;
use aviso_merge::install_aviso_package;
use aviso_merge::is_aviso_installed;
use aviso_merge::probe::extract_geo_area_names;
use aviso_merge::probe::extract_region_names;
use aviso_merge::InstallationStatus;

#[test]
fn geo_names_come_from_the_geo_section() {
    let names = extract_geo_area_names(b"[GEO]\nABCDE N501234 E0051234\n");
    assert_eq!(names, vec![b"ABCDE".to_vec()]);
}

#[test]
fn geo_names_use_first_coordinate_start() {
    let names = extract_geo_area_names(b"[GEO]\nCOASTLINE S123456 W0012345\n");
    assert_eq!(names, vec![b"COASTLINE".to_vec()]);
}

#[test]
fn geo_names_are_deduplicated_in_first_seen_order() {
    let names = extract_geo_area_names(
        b"[GEO]\nAAA N501234 E0051234\nBBB N501234 E0051234\nAAA N509999 E0059999\n",
    );
    assert_eq!(names, vec![b"AAA".to_vec(), b"BBB".to_vec()]);
}

#[test]
fn geo_names_outside_geo_section_are_ignored() {
    let names = extract_geo_area_names(b"[OTHER]\nABCDE N501234 E0051234\n");
    assert_eq!(names, Vec::<Vec<u8>>::new());
}

#[test]
fn geo_lines_without_marker_are_skipped() {
    let names = extract_geo_area_names(b"[GEO]\nno coordinates here\n\n");
    assert_eq!(names, Vec::<Vec<u8>>::new());
}

#[test]
fn region_names_come_from_regionname_lines() {
    let names = extract_region_names(
        b"[REGIONS]\nREGIONNAME Zone One\n  REGIONNAME Zone Two\nREGIONNAME Zone One\n",
    );
    assert_eq!(names, vec![b"Zone One".to_vec(), b"Zone Two".to_vec()]);
}

#[test]
fn region_names_outside_regions_section_are_ignored() {
    let names = extract_region_names(b"[GEO]\nREGIONNAME Zone One\n");
    assert_eq!(names, Vec::<Vec<u8>>::new());
}

#[test]
fn probe_reports_partially_installed_on_substring_hit() {
    let status = is_aviso_installed(
        b"[GEO]\nABCDE N501234 E0051234\n",
        b"[GEO]\nABCDE N501234 E0051234\n",
    );
    assert_eq!(status, InstallationStatus::PartiallyInstalled);
}

#[test]
fn probe_reports_not_installed_without_hit() {
    let status = is_aviso_installed(
        b"[GEO]\nVWXYZ N101234 E0051234\n",
        b"[GEO]\nABCDE N501234 E0051234\n",
    );
    assert_eq!(status, InstallationStatus::NotInstalled);
}

#[test]
fn probe_uses_region_names_too() {
    let status = is_aviso_installed(
        b"some text mentioning Zone One somewhere\n",
        b"[REGIONS]\nREGIONNAME Zone One\n",
    );
    assert_eq!(status, InstallationStatus::PartiallyInstalled);
}

#[test]
fn category_hint_takes_prefix_before_first_underscore() {
    assert_eq!(category_hint(b"LFFF_AVISO.sct"), b"LFFF".to_vec());
}

#[test]
fn category_hint_keeps_whole_name_without_underscore() {
    assert_eq!(category_hint(b"plain.sct"), b"plain.sct".to_vec());
}

#[test]
fn package_merges_both_documents() {
    let (sct, ese) = install_aviso_package(
        b"[X]\na\n",
        Some(b";=~~A~~=;\nold\n".as_slice()),
        b"[X]\nb\n",
        Some(b";=~~A~~=;\nnew\n".as_slice()),
        b"LFFF_AVISO.sct",
    );
    assert_eq!(sct, b"[X]\na\nb\n".to_vec());
    assert_eq!(ese, Some(b";=~~A~~=;\nnew\n".to_vec()));
}

#[test]
fn package_skips_header_merge_without_both_parts() {
    let (sct, ese) = install_aviso_package(
        b"[X]\na\n",
        None,
        b"[X]\nb\n",
        Some(b";=~~A~~=;\nnew\n".as_slice()),
        b"LFFF_AVISO.sct",
    );
    assert_eq!(sct, b"[X]\na\nb\n".to_vec());
    assert_eq!(ese, None);
}
