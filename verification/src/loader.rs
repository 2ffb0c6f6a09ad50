//! Turning what the loader found into units.
//!
//! The loader walks the corpus root and hands over one entry per file. A
//! file becomes a unit if its name ends in the extension of the class that
//! is indexed. A file that could not be read is an error of that file
//! alone: it is counted and the others go on.
use crate::text::{chars_of, option_text};
use crate::error::PipelineError;
use crate::unit::{unit_views, with_error, ContentClass, Unit, UnitView};
use vstd::prelude::*;
use vstd::string::StringExecFns;

verus! {

/// A file that the loader found: its path, and its text if it could be read.
#[derive(Debug, PartialEq, Eq)]
pub struct LoadedFile {
    pub path: String,
    pub content: Option<String>,
}

/// A loaded file with its texts as character sequences.
pub struct LoadedFileView {
    pub path: Seq<char>,
    pub content: Option<Seq<char>>,
}

impl View for LoadedFile {
    type V = LoadedFileView;

    open spec fn view(&self) -> LoadedFileView {
        LoadedFileView { path: self.path@, content: option_text(self.content) }
    }
}

/// The views of a list of files, in order.
pub open spec fn file_views(files: Seq<LoadedFile>) -> Seq<LoadedFileView> {
    files.map_values(|f: LoadedFile| f@)
}

/// The extension of the files of a class, without the dot.
pub open spec fn extension_of(class: ContentClass) -> Seq<char> {
    match class {
        ContentClass::Prose => "md"@,
        ContentClass::Code => "rs"@,
    }
}

/// Whether a path ends in a dot and the extension.
pub open spec fn has_extension(path: Seq<char>, extension: Seq<char>) -> bool {
    &&& path.len() > extension.len()
    &&& path[path.len() - extension.len() - 1] == '.'
    &&& path.subrange(path.len() - extension.len(), path.len() as int) == extension
}

/// The extension that the loader is to look for.
pub fn accepted_extension(class: ContentClass) -> (extension: String)
    ensures
        extension@ == extension_of(class),
{
    match class {
        ContentClass::Prose => String::from_str("md"),
        ContentClass::Code => String::from_str("rs"),
    }
}

/// Says whether a path ends in a dot and the extension.
pub fn ends_with_extension(path: &str, extension: &str) -> (ok: bool)
    ensures
        ok == has_extension(path@, extension@),
{
    let name = chars_of(path);
    let ext = chars_of(extension);
    if name.len() <= ext.len() {
        return false;
    }
    let from = name.len() - ext.len();
    if name[from - 1] != '.' {
        return false;
    }
    let mut i: usize = 0;
    while i < ext.len()
        invariant
            i <= ext.len(),
            from == name.len() - ext.len(),
            name.len() > ext.len(),
            name@ == path@,
            ext@ == extension@,
            forall|j: int| 0 <= j < i ==> name@[from + j] == ext@[j],
        decreases ext.len() - i,
    {
        if name[from + i] != ext[i] {
            assert(name@.subrange(from as int, name.len() as int)[i as int] != ext@[i as int]);
            return false;
        }
        i += 1;
    }
    assert(name@.subrange(from as int, name.len() as int) =~= ext@);
    true
}

/// Whether a file belongs to the class that is indexed.
pub open spec fn belongs(file: LoadedFileView, class: ContentClass) -> bool {
    has_extension(file.path, extension_of(class))
}

/// The units of those of the first `n` files that belong to the class and
/// could be read, in order.
pub open spec fn units_of(files: Seq<LoadedFileView>, class: ContentClass, n: nat) -> Seq<UnitView>
    decreases n,
{
    if n == 0 {
        Seq::empty()
    } else {
        match files[n - 1].content {
            Some(text) if belongs(files[n - 1], class) => units_of(files, class, (n - 1) as nat).push(
                UnitView::of_file(files[n - 1].path, text, class, text.len()),
            ),
            _ => units_of(files, class, (n - 1) as nat),
        }
    }
}

/// A file that could not be read, as it is reported: without content and
/// marked with a load error.
pub open spec fn unread(path: Seq<char>, class: ContentClass) -> UnitView {
    with_error(UnitView::of_file(path, Seq::empty(), class, 0), PipelineError::LoadError)
}

/// Those of the first `n` files that belong to the class but could not be
/// read, in order.
pub open spec fn unreadable_of(files: Seq<LoadedFileView>, class: ContentClass, n: nat) -> Seq<
    UnitView,
>
    decreases n,
{
    if n == 0 {
        Seq::empty()
    } else if belongs(files[n - 1], class) && files[n - 1].content.is_none() {
        unreadable_of(files, class, (n - 1) as nat).push(unread(files[n - 1].path, class))
    } else {
        unreadable_of(files, class, (n - 1) as nat)
    }
}

/// The units of a list of files, and the files that could not be read.
#[derive(Debug, PartialEq, Eq)]
pub struct Loaded {
    pub units: Vec<Unit>,
    /// The files that could not be read, marked with a load error.
    pub unreadable: Vec<Unit>,
}

/// Makes one unit for every file of the class that could be read and
/// reports those that could not. Files of other extensions are passed over.
pub fn load_units(files: Vec<LoadedFile>, class: ContentClass) -> (out: Loaded)
    ensures
        unit_views(out.units@) == units_of(file_views(files@), class, files.len() as nat),
        unit_views(out.unreadable@) == unreadable_of(
            file_views(files@),
            class,
            files.len() as nat,
        ),
        forall|i: int| 0 <= i < out.units.len() ==> (#[trigger] out.units[i])@.well_formed(),
{
    let ghost all = file_views(files@);
    let total = files.len();
    let extension = accepted_extension(class);
    let mut units: Vec<Unit> = Vec::new();
    let mut unreadable: Vec<Unit> = Vec::new();
    let mut i: usize = 0;
    assert(unit_views(units@) =~= Seq::<UnitView>::empty());
    assert(unit_views(unreadable@) =~= Seq::<UnitView>::empty());
    for file in it: files
        invariant
            file_views(it.seq()) == all,
            it.seq().len() == total,
            i == it.index(),
            extension@ == extension_of(class),
            unit_views(units@) == units_of(all, class, i as nat),
            unit_views(unreadable@) == unreadable_of(all, class, i as nat),
            forall|j: int| 0 <= j < units.len() ==> (#[trigger] units[j])@.well_formed(),
    {
        assert(all[i as int] == file@);
        let LoadedFile { path, content } = file;
        if ends_with_extension(path.as_str(), extension.as_str()) {
            match content {
                Some(text) => {
                    let unit = Unit::from_file(path, text, class);
                    let ghost before = unit_views(units@);
                    units.push(unit);
                    assert(unit_views(units@) =~= before.push(unit@));
                },
                None => {
                    let mut unit = Unit::from_file(path, String::new(), class);
                    unit.error = Some(PipelineError::LoadError);
                    let ghost before = unit_views(unreadable@);
                    unreadable.push(unit);
                    assert(unit_views(unreadable@) =~= before.push(unit@));
                },
            }
        }
        i += 1;
    }
    Loaded { units, unreadable }
}

} // verus!
