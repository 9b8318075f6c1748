use vstd::prelude::*;

use crate::scan::name_view;
use crate::walk::{scanned, EntryView};

verus! {

/// The label written in a header for a file whose base name is unknown.
pub open spec fn no_name_label() -> Seq<char> {
    seq!['<', 'n', 'o', '_', 'n', 'a', 'm', 'e', '>']
}

/// The header line of a block: `-- <path> --<name>` and a line break.
pub open spec fn header_of(path: Seq<char>, name: Option<Seq<char>>) -> Seq<char> {
    let label = match name {
        Some(n) => n,
        None => no_name_label(),
    };
    seq!['-', '-', ' '] + path + seq![' ', '-', '-'] + label + seq!['\n']
}

/// The block of one file: its header line, then its contents verbatim,
/// then a line break.
pub open spec fn block_of(path: Seq<char>, name: Option<Seq<char>>, contents: Seq<char>) -> Seq<
    char,
> {
    header_of(path, name) + contents + seq!['\n']
}

/// One file as the output shows it.
pub ghost struct SourceText {
    pub path: Seq<char>,
    pub name: Option<Seq<char>>,
    pub contents: Seq<char>,
}

/// The output document: the blocks of the files, in order.
pub open spec fn document(files: Seq<SourceText>) -> Seq<char>
    decreases files.len(),
{
    if files.len() == 0 {
        Seq::empty()
    } else {
        let f = files.last();
        document(files.drop_last()) + block_of(f.path, f.name, f.contents)
    }
}

/// Where the block of file `i` starts in the document.
pub open spec fn block_start(files: Seq<SourceText>, i: int) -> int {
    document(files.take(i)).len() as int
}

/// The header line for a file, given its path as displayed and its base
/// name (`None` when it has none that is valid text).
pub fn header_line(path: &str, name: Option<&str>) -> (r: String)
    ensures
        r@ == header_of(path@, name_view(name)),
{
    let mut r = String::new();
    proof {
        reveal_strlit("-- ");
        reveal_strlit(" --");
        reveal_strlit("<no_name>");
        reveal_strlit("\n");
    }
    r.append("-- ");
    r.append(path);
    r.append(" --");
    match name {
        Some(n) => r.append(n),
        None => r.append("<no_name>"),
    }
    r.append("\n");
    assert(r@ =~= header_of(path@, name_view(name)));
    r
}

/// The whole block for a file: header line, contents, line break.
pub fn format_block(path: &str, name: Option<&str>, contents: &str) -> (r: String)
    ensures
        r@ == block_of(path@, name_view(name), contents@),
{
    let mut r = header_line(path, name);
    proof {
        reveal_strlit("\n");
    }
    r.append(contents);
    r.append("\n");
    r
}

/// The text of the document from the start of block `i` to the start of
/// block `i + 1` is the block of file `i`.
pub open spec fn block_in_place(files: Seq<SourceText>, i: int) -> bool {
    &&& block_start(files, i) <= block_start(files, i + 1) <= document(files).len()
    &&& document(files).subrange(block_start(files, i), block_start(files, i + 1)) == block_of(
        files[i].path,
        files[i].name,
        files[i].contents,
    )
}

proof fn lemma_block_at(files: Seq<SourceText>, i: int)
    requires
        0 <= i < files.len(),
    ensures
        block_start(files, i) <= block_start(files, i + 1) <= document(files).len(),
        document(files).subrange(block_start(files, i), block_start(files, i + 1)) == block_of(
            files[i].path,
            files[i].name,
            files[i].contents,
        ),
    decreases files.len(),
{
    let pre = files.drop_last();
    let n = files.len() - 1;
    let d = document(files);
    assert(files.take(n) =~= pre);
    assert(files.take(n + 1) =~= files);
    if i < n {
        lemma_block_at(pre, i);
        assert(files.take(i) =~= pre.take(i));
        assert(files.take(i + 1) =~= pre.take(i + 1));
        assert(pre[i] == files[i]);
        assert(pre.take(n) =~= pre);
        assert(d.subrange(block_start(files, i), block_start(files, i + 1)) =~= document(
            pre,
        ).subrange(block_start(pre, i), block_start(pre, i + 1)));
    } else {
        assert(d.subrange(block_start(files, i), block_start(files, i + 1)) =~= block_of(
            files[i].path,
            files[i].name,
            files[i].contents,
        ));
    }
}

/// The document splits into the files' blocks: block `i` covers the text
/// from its start up to the start of block `i + 1`, and holds the header
/// of file `i`, then that file's contents, then one line break.  The last
/// block ends where the document ends.
pub proof fn lemma_document_blocks(files: Seq<SourceText>)
    ensures
        block_start(files, 0) == 0,
        block_start(files, files.len() as int) == document(files).len(),
        forall|i: int| 0 <= i < files.len() ==> #[trigger] block_in_place(files, i),
{
    assert(files.take(files.len() as int) =~= files);
    assert(files.take(0) =~= Seq::<SourceText>::empty());
    assert forall|i: int| 0 <= i < files.len() implies #[trigger] block_in_place(files, i) by {
        lemma_block_at(files, i);
    }
}

/// Running twice on the same walk, the same filter and unchanged files
/// gives the same scanned list and the same document.
pub proof fn lemma_rerun_identical(
    walk1: Seq<EntryView>,
    walk2: Seq<EntryView>,
    exts: Seq<Seq<char>>,
    ignore_hidden: bool,
    files1: Seq<SourceText>,
    files2: Seq<SourceText>,
)
    requires
        walk1 == walk2,
        files1 == files2,
    ensures
        scanned(walk1, exts, ignore_hidden) == scanned(walk2, exts, ignore_hidden),
        document(files1) == document(files2),
{
}

} // verus!
