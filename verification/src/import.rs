//! Merging the contents of imported files into one input text, and the
//! status line shown after an import.
use vstd::prelude::*;
use crate::text::{
    append_chars, append_str, chars_of, decimal, join, lemma_join_push, push_decimal, string_of,
    trim_bounds,
};
use crate::parser::{char_seqs, ring_separator, string_seqs, trimmed_nonempty};

verus! {

/// The line that separates the contents of two merged files.
pub const RING_JOIN_SEPARATOR: &'static str = "===============";

/// The sample files, as paths relative to the working directory.
pub const EXAMPLES_SAMPLE_PATHS: &'static str = "examples/beijing_2d.txt, examples/beijing_3d.txt";

/// An imported file as the status line names it: its path as displayed and
/// its file name.
#[derive(Debug, Clone)]
pub struct ImportedFile {
    pub display: String,
    pub file_name: String,
}

impl View for ImportedFile {
    type V = (Seq<char>, Seq<char>);

    open spec fn view(&self) -> (Seq<char>, Seq<char>) {
        (self.display@, self.file_name@)
    }
}

/// What stands between the contents of two merged files.
pub open spec fn merge_joint() -> Seq<char> {
    seq!['\n'] + ring_separator() + seq!['\n']
}

pub open spec fn no_files_message() -> Seq<char> {
    "No files selected."@
}

pub open spec fn no_data_message() -> Seq<char> {
    "Selected file(s) contain no coordinate data."@
}

/// The merge of the file contents `cs`: the trimmed non-empty contents
/// joined by a separator line.
pub open spec fn merged(cs: Seq<Seq<char>>) -> Result<Seq<char>, Seq<char>> {
    if cs.len() == 0 {
        Err(no_files_message())
    } else if trimmed_nonempty(cs).len() == 0 {
        Err(no_data_message())
    } else {
        Ok(join(trimmed_nonempty(cs), merge_joint()))
    }
}

pub open spec fn result_seqs(r: Result<String, String>) -> Result<Seq<char>, Seq<char>> {
    match r {
        Ok(t) => Ok(t@),
        Err(e) => Err(e@),
    }
}

/// The text of one or more files merged for the input box: one file's
/// contents trimmed; several files' trimmed contents joined by a line of
/// fifteen `=`, files with nothing but whitespace left out.
pub fn merge_file_contents(contents: &Vec<String>) -> (r: Result<String, String>)
    ensures
        result_seqs(r) == merged(string_seqs(contents@)),
{
    let ghost cs = string_seqs(contents@);
    if contents.len() == 0 {
        return Err(string_of(&chars_of("No files selected.")));
    }
    let mut blocks: Vec<Vec<char>> = Vec::new();
    let mut k: usize = 0;
    while k < contents.len()
        invariant
            cs == string_seqs(contents@),
            k <= contents.len(),
            char_seqs(blocks@) == trimmed_nonempty(cs.take(k as int)),
        decreases contents.len() - k,
    {
        let c = chars_of(contents[k].as_str());
        let (x, y) = trim_bounds(&c, 0, c.len());
        proof {
            assert(c@.subrange(0, c.len() as int) =~= c@);
            assert(cs.take(k + 1).drop_last() =~= cs.take(k as int));
            assert(cs.take(k + 1).last() == c@);
        }
        if x < y {
            let b = crate::text::copy_range(&c, x, y);
            let ghost old_blocks = blocks@;
            blocks.push(b);
            assert(char_seqs(blocks@) =~= char_seqs(old_blocks).push(b@));
        }
        k = k + 1;
    }
    assert(cs.take(contents.len() as int) =~= cs);
    if blocks.len() == 0 {
        return Err(string_of(&chars_of("Selected file(s) contain no coordinate data.")));
    }
    let ghost bs = char_seqs(blocks@);
    let mut joint: Vec<char> = Vec::new();
    joint.push('\n');
    append_chars(&mut joint, &crate::parser::separator());
    joint.push('\n');
    assert(joint@ =~= merge_joint());
    let mut out: Vec<char> = Vec::new();
    append_chars(&mut out, &blocks[0]);
    let mut i: usize = 1;
    assert(out@ =~= join(bs.take(1), merge_joint()));
    while i < blocks.len()
        invariant
            bs == char_seqs(blocks@),
            joint@ == merge_joint(),
            1 <= i <= blocks.len(),
            out@ == join(bs.take(i as int), merge_joint()),
        decreases blocks.len() - i,
    {
        append_chars(&mut out, &joint);
        append_chars(&mut out, &blocks[i]);
        proof {
            assert(bs.take(i + 1) =~= bs.take(i as int).push(bs[i as int]));
            lemma_join_push(bs.take(i as int), bs[i as int], merge_joint());
        }
        i = i + 1;
    }
    assert(bs.take(blocks.len() as int) =~= bs);
    Ok(string_of(&out))
}

pub open spec fn file_names(files: Seq<ImportedFile>) -> Seq<Seq<char>> {
    files.map_values(|f: ImportedFile| f.file_name@)
}

/// The status line after importing `files`.
pub open spec fn import_status(files: Seq<ImportedFile>, merged_from_multiple: bool) -> Seq<char> {
    if files.len() == 1 {
        "Imported: "@ + files[0].display@
    } else if merged_from_multiple {
        "Imported "@ + decimal(files.len()) + " files (merged with "@ + ring_separator() + "): "@
            + join(file_names(files), ", "@)
    } else {
        "Imported "@ + decimal(files.len()) + " files."@
    }
}

/// The status line after importing `paths`: the path of a single file, or
/// the number of files and, when they were merged, their names.
pub fn format_import_status(paths: &[ImportedFile], merged_from_multiple: bool) -> (r: String)
    ensures
        r@ == import_status(paths@, merged_from_multiple),
{
    let mut out: Vec<char> = Vec::new();
    if paths.len() == 1 {
        append_str(&mut out, "Imported: ");
        append_str(&mut out, paths[0].display.as_str());
    } else if merged_from_multiple {
        append_str(&mut out, "Imported ");
        push_decimal(&mut out, paths.len());
        append_str(&mut out, " files (merged with ");
        append_chars(&mut out, &crate::parser::separator());
        append_str(&mut out, "): ");
        let ghost before = out@;
        let ghost names = file_names(paths@);
        let mut i: usize = 0;
        proof {
            assert(names.take(0) =~= Seq::<Seq<char>>::empty());
            assert(out@ =~= before + join(names.take(0), ", "@));
        }
        while i < paths.len()
            invariant
                names == file_names(paths@),
                i <= paths.len(),
                out@ == before + join(names.take(i as int), ", "@),
            decreases paths.len() - i,
        {
            let ghost prev = out@;
            if i > 0 {
                append_str(&mut out, ", ");
            }
            append_str(&mut out, paths[i].file_name.as_str());
            proof {
                assert(names[i as int] == paths@[i as int].file_name@);
                assert(names.take(i + 1) =~= names.take(i as int).push(names[i as int]));
                if i > 0 {
                    lemma_join_push(names.take(i as int), names[i as int], ", "@);
                } else {
                    assert(join(names.take(1), ", "@) == names[0]);
                }
            }
            i = i + 1;
        }
        assert(names.take(paths.len() as int) =~= names);
    } else {
        append_str(&mut out, "Imported ");
        push_decimal(&mut out, paths.len());
        append_str(&mut out, " files.");
    }
    string_of(&out)
}

} // verus!
