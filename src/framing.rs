use vstd::prelude::*;

verus! {

/// The text of a backing file that holds `lines` in order, each ended by a newline.
pub open spec fn file_text_of(lines: Seq<Seq<char>>) -> Seq<char>
    decreases lines.len(),
{
    if lines.len() == 0 {
        Seq::empty()
    } else {
        file_text_of(lines.drop_last()) + lines.last() + seq!['\n']
    }
}

/// The views of a list of strings.
pub open spec fn texts(lines: Seq<String>) -> Seq<Seq<char>> {
    lines.map_values(|l: String| l@)
}

/// Lays encoded records out as the backing file holds them: one per line, in
/// the order given, every line ended by a newline.
pub fn file_text(lines: &Vec<String>) -> (r: String)
    ensures
        r@ == file_text_of(texts(lines@)),
{
    let mut out = String::new();
    let mut i: usize = 0;
    while i < lines.len()
        invariant
            0 <= i <= lines@.len(),
            out@ == file_text_of(texts(lines@.subrange(0, i as int))),
        decreases lines@.len() - i,
    {
        let ghost before = out@;
        out.append(lines[i].as_str());
        out.append("\n");
        proof {
            reveal_strlit("\n");
            let t = texts(lines@.subrange(0, i + 1));
            assert(t.drop_last() =~= texts(lines@.subrange(0, i as int)));
            assert(t.last() == lines@[i as int]@);
            assert(out@ =~= before + lines@[i as int]@ + seq!['\n']);
        }
        i = i + 1;
    }
    assert(lines@.subrange(0, lines@.len() as int) =~= lines@);
    out
}

} // verus!
