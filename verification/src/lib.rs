//! Structural merge engines for two line-oriented, section-delimited
//! configuration text formats used in sector data: a bracket-section format
//! (`[NAME]` headers) merged additively, and a comment-banner category format
//! (`;===~~NAME~~===;` headers) merged by whole-body replacement, plus a
//! read-only installation probe.  All engines are total over arbitrary byte
//! documents; the caller owns all file I/O.

pub mod ese;
pub mod probe;
pub mod sct;
pub mod text;

use vstd::prelude::*;

verus! {

/// Coarse result of probing a local document for traces of a remote update.
#[derive(Debug, PartialEq, Eq, Structural)]
pub enum InstallationStatus {
    PartiallyInstalled,
    NotInstalled,
}

/// The category hint derived from an update's file name: the part before
/// the first underscore, or the whole name where it has none.
pub open spec fn spec_category_hint(filename: Seq<u8>) -> Seq<u8> {
    if text::first_byte(filename, 95) < filename.len() {
        filename.take(text::first_byte(filename, 95) as int)
    } else {
        filename
    }
}

pub fn category_hint(filename: &[u8]) -> (r: Vec<u8>)
    ensures
        r@ == spec_category_hint(filename@),
{
    let n = filename.len();
    let mut k: usize = 0;
    while k < n && filename[k] != 95
        invariant
            k <= n,
            n == filename@.len(),
            forall|j: int| 0 <= j < k ==> filename@[j] != 95,
        decreases n - k,
    {
        k = k + 1;
    }
    proof {
        if k < n {
            text::lemma_first_byte_at(filename@, 95, k as int);
        } else {
            text::lemma_first_byte_none(filename@, 95);
            assert(filename@.subrange(0, n as int) =~= filename@);
        }
    }
    vstd::slice::slice_to_vec(vstd::slice::slice_subrange(filename, 0, k))
}

/// Merges remote bracket-section content into the local bracket-section
/// document and returns the merged document: remote bodies are appended to
/// the matching local sections, new sections are added at the end, and
/// local section order is preserved.
pub fn install_aviso_content(lfxx_content: &[u8], aviso_content: &[u8]) -> (merged: Vec<u8>)
    ensures
        merged@ == sct::spec_sct_merge(lfxx_content@, aviso_content@),
{
    sct::install_content(lfxx_content, aviso_content)
}

/// Probes the local document for the remote update's identifying names:
/// partially installed exactly when some geo area or region name of the
/// remote content occurs as a literal substring of the local document.
pub fn is_aviso_installed(lfxx_content: &[u8], aviso_content: &[u8]) -> (status:
    InstallationStatus)
    ensures
        status == InstallationStatus::PartiallyInstalled <==> probe::spec_partially_installed(
            lfxx_content@,
            aviso_content@,
        ),
        status == InstallationStatus::NotInstalled <==> !probe::spec_partially_installed(
            lfxx_content@,
            aviso_content@,
        ),
{
    if probe::any_known_name(lfxx_content, aviso_content) {
        InstallationStatus::PartiallyInstalled
    } else {
        InstallationStatus::NotInstalled
    }
}

/// Installs an update package: always merges the bracket-section payload,
/// and, when both a local comment-header document and remote comment-header
/// content are supplied, also merges those, deriving the (informational)
/// category hint from the file name.
pub fn install_aviso_package(
    lfxx_content: &[u8],
    lfxx_ese_content: Option<&[u8]>,
    aviso_content: &[u8],
    ese_content: Option<&[u8]>,
    filename: &[u8],
) -> (r: (Vec<u8>, Option<Vec<u8>>))
    ensures
        r.0@ == sct::spec_sct_merge(lfxx_content@, aviso_content@),
        (match (lfxx_ese_content, ese_content) {
            (Option::Some(le), Option::Some(re)) => match r.1 {
                Option::Some(v) => v@ == ese::spec_ese_merge(le@, re@),
                Option::None => false,
            },
            _ => r.1 is None,
        }),
{
    let merged_sct = sct::install_content(lfxx_content, aviso_content);
    let merged_ese = match (lfxx_ese_content, ese_content) {
        (Some(le), Some(re)) => {
            let hint = category_hint(filename);
            Some(ese::install_content(le, re, hint.as_slice()))
        },
        _ => None,
    };
    (merged_sct, merged_ese)
}

} // verus!
