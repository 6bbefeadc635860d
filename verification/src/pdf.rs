//! Which files the PDF viewer opens.

use vstd::prelude::*;
use crate::paths::{components, components_view, extension_start, path_extension, PathComponent};
use crate::text::{chars_of, eq_ignore_ascii_case_from, eq_ignore_ascii_case_spec};

verus! {

/// `pdf`, in any ASCII case.
pub open spec fn is_pdf_extension(e: Seq<char>) -> bool {
    eq_ignore_ascii_case_spec(e, seq!['p', 'd', 'f'])
}

/// Whether a file is a PDF document: its extension, or else the extension
/// of its absolute path (a single-file worktree has an empty relative
/// path, so the name belongs to the root), is `pdf` in any ASCII case.
pub open spec fn is_pdf_spec(extension: Option<Seq<char>>, absolute_path: Option<Seq<char>>) -> bool {
    let e = match extension {
        Some(e) => Some(e),
        None => match absolute_path {
            Some(p) => path_extension(p),
            None => None,
        },
    };
    e matches Some(x) && is_pdf_extension(x)
}

/// Whether `name[start..]` is `pdf` in any ASCII case.
fn is_pdf_extension_at(name: &[char], start: usize) -> (r: bool)
    requires
        start <= name.len(),
    ensures
        r == is_pdf_extension(name@.skip(start as int)),
{
    let pdf = ['p', 'd', 'f'];
    assert(pdf@ =~= seq!['p', 'd', 'f']);
    eq_ignore_ascii_case_from(name, start, &pdf)
}

/// Whether a file is a PDF document (see [`is_pdf_spec`]).
pub fn is_pdf(extension: Option<&str>, absolute_path: Option<&str>) -> (r: bool)
    ensures
        r == is_pdf_spec(
            match extension {
                Some(e) => Some(e@),
                None => None,
            },
            match absolute_path {
                Some(p) => Some(p@),
                None => None,
            },
        ),
{
    match extension {
        Some(e) => {
            let chars = chars_of(e);
            assert(chars@.skip(0) =~= chars@);
            is_pdf_extension_at(chars.as_slice(), 0)
        },
        None => match absolute_path {
            Some(p) => {
                let comps = components(p);
                if comps.len() == 0 {
                    return false;
                }
                assert(components_view(comps@).last() == comps@.last()@);
                match &comps[comps.len() - 1] {
                    PathComponent::Normal(name) => match extension_start(name.as_slice()) {
                        Some(start) => is_pdf_extension_at(name.as_slice(), start),
                        None => false,
                    },
                    _ => false,
                }
            },
            None => false,
        },
    }
}

} // verus!
