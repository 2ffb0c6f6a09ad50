//! The outline of a source file, shared by the chunks cut from it.
use crate::text::option_text;
use crate::unit::{ContentClass, Unit, UnitView};
use vstd::prelude::*;
use vstd::string::StringExecFns;

verus! {

/// The outline that the framework's outliner gives for Rust source: the
/// code without its function bodies; `None` where it cannot parse the code.
pub uninterp spec fn rust_outline(code: Seq<char>) -> Option<Seq<char>>;

/// Calls `swiftide_integrations::treesitter::CodeOutliner::outline`, built
/// for the language "rust", on `code`. The outliner parses the code and
/// walks the syntax tree, so its result depends on the code alone; the
/// contract names it. A parse failure comes back as `None`.
#[verifier::external_body]
fn outline_rust(code: &str) -> (outline: Option<String>)
    ensures
        option_text(outline) == rust_outline(code@),
{
    let outliner = swiftide_integrations::treesitter::CodeOutliner::builder()
        .try_language("rust")
        .ok()?
        .build()
        .ok()?;
    outliner.outline(code).ok()
}

/// The metadata key under which the outline is kept.
pub open spec fn outline_key() -> Seq<char> {
    "Outline"@
}

/// Whether a unit gets an outline: source code of at least `min_size` characters.
pub open spec fn wants_outline(unit: UnitView, min_size: usize) -> bool {
    unit.class == ContentClass::Code && unit.content.len() >= min_size
}

/// The unit with the outline in its metadata, where it wants one and one was
/// made. Without an outline the unit goes on as it is.
pub open spec fn outlined(unit: UnitView, min_size: usize, outline: Option<Seq<char>>) -> UnitView {
    match outline {
        Some(text) if wants_outline(unit, min_size) => UnitView {
            metadata: unit.metadata.insert(outline_key(), text),
            ..unit
        },
        _ => unit,
    }
}

/// Puts an outline that was made for the unit into its metadata.
pub fn attach_outline(unit: &mut Unit, min_size: usize, outline: Option<String>)
    ensures
        final(unit)@ == outlined(old(unit)@, min_size, option_text(outline)),
{
    let large = unit.content.as_str().unicode_len() >= min_size;
    match outline {
        Some(text) => {
            if large && matches!(unit.class, ContentClass::Code) {
                unit.insert_metadata(String::from_str("Outline"), text);
            }
        },
        None => {},
    }
}

/// Makes the outline of a source file and puts it into the unit's metadata,
/// from where the chunks of the file inherit it.
pub fn outline_unit(unit: &mut Unit, min_size: usize)
    ensures
        final(unit)@ == outlined(
            old(unit)@,
            min_size,
            if wants_outline(old(unit)@, min_size) {
                rust_outline(old(unit)@.content)
            } else {
                None
            },
        ),
{
    let large = unit.content.as_str().unicode_len() >= min_size;
    if large && matches!(unit.class, ContentClass::Code) {
        let outline = outline_rust(unit.content.as_str());
        attach_outline(unit, min_size, outline);
    }
}

} // verus!
