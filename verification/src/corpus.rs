//! Corpus line handling: a corpus file holds tab-delimited id/content
//! lines. The content of each well-formed line is lower-cased and kept;
//! malformed lines are skipped, unless every line is malformed, which is
//! an error. Also recognises the sentence-file name inside an archive.

use vstd::prelude::*;

use crate::countable::Countable;
use crate::report::AnalyserError;

verus! {

/// The lower-case form of a character sequence, as `str::to_lowercase`
/// computes it.
pub uninterp spec fn lower_of(s: Seq<char>) -> Seq<char>;

/// Relies on `str::to_lowercase` of std: the result depends on the
/// characters alone; an empty string stays empty.
#[verifier::external_body]
fn lowercase(s: &str) -> (r: String)
    ensures
        r@ == lower_of(s@),
        s@.len() == 0 ==> r@.len() == 0,
{
    s.to_lowercase()
}

/// The position of the first tab in a line, or a negative value.
pub open spec fn find_tab(line: Seq<char>) -> int
    decreases line.len(),
{
    if line.len() == 0 {
        -1
    } else if line[0] == '\t' {
        0
    } else {
        let r = find_tab(line.drop_first());
        if r < 0 {
            -1
        } else {
            r + 1
        }
    }
}

/// The lower-cased content of a well-formed line: everything after the
/// first tab.
pub open spec fn line_content(line: Seq<char>) -> Option<Seq<char>> {
    if find_tab(line) >= 0 {
        Some(lower_of(line.skip(find_tab(line) + 1)))
    } else {
        None
    }
}

/// The sentences extracted from a corpus: the lower-cased content of
/// every well-formed line, in order.
pub open spec fn extracted(lines: Seq<Seq<char>>) -> Seq<Seq<char>>
    decreases lines.len(),
{
    if lines.len() == 0 {
        Seq::empty()
    } else {
        extracted(lines.drop_last()) + (match line_content(lines.last()) {
            Some(c) => seq![c],
            None => Seq::empty(),
        })
    }
}

/// The position of the first tab in a line, or none.
fn find_tab_exec(line: &Countable) -> (r: Option<usize>)
    ensures
        match r {
            Some(i) => find_tab(line@) == i && i < line@.len(),
            None => find_tab(line@) < 0,
        },
{
    proof {
        assert(line@.skip(0) =~= line@);
    }
    let n: usize = line.len();
    for i in 0..n
        invariant
            n == line@.len(),
            find_tab(line@) >= 0 ==> find_tab(line@) >= i && find_tab(line@) == find_tab(
                line@.skip(i as int),
            ) + i,
            find_tab(line@) < 0 ==> find_tab(line@.skip(i as int)) < 0,
    {
        proof {
            let rest = line@.skip(i as int);
            assert(rest.len() > 0);
            assert(rest[0] == line@[i as int]);
            assert(rest.drop_first() =~= line@.skip(i + 1));
        }
        if line.char_at(i) == '\t' {
            proof {
                assert(find_tab(line@.skip(i as int)) == 0);
            }
            return Some(i);
        }
    }
    proof {
        assert(line@.skip(n as int) =~= Seq::<char>::empty());
        assert(find_tab(Seq::<char>::empty()) == -1);
    }
    None
}

/// Extracts the sentences of a corpus: each tab-delimited line's
/// content, lower-cased; lines without a tab are skipped. Fails with
/// `MalformedInput` exactly when the corpus is non-empty and every line
/// is malformed.
pub fn extract_sentences(lines: &Vec<String>) -> (r: Result<Vec<String>, AnalyserError>)
    ensures
        match r {
            Ok(ss) => ss@.map_values(|s: String| s@) == extracted(
                lines@.map_values(|l: String| l@),
            ) && (lines@.len() == 0 || extracted(lines@.map_values(|l: String| l@)).len() > 0),
            Err(e) => e@ == crate::report::ErrorSpec::MalformedInput && lines@.len() > 0
                && extracted(lines@.map_values(|l: String| l@)).len() == 0,
        },
{
    let ghost lv = lines@.map_values(|l: String| l@);
    let mut out: Vec<String> = Vec::new();
    let n: usize = lines.len();
    for i in 0..n
        invariant
            n == lines@.len(),
            lv == lines@.map_values(|l: String| l@),
            out@.map_values(|s: String| s@) == extracted(lv.subrange(0, i as int)),
    {
        let line = Countable::from_string(&lines[i]);
        proof {
            let pre = lv.subrange(0, i as int);
            let post = lv.subrange(0, i + 1);
            assert(post.drop_last() =~= pre);
            assert(post.last() == lv[i as int]);
        }
        match find_tab_exec(&line) {
            None => {
                proof {
                    assert(out@.map_values(|s: String| s@) =~= extracted(
                        lv.subrange(0, i + 1),
                    ));
                }
            },
            Some(t) => {
                let len: usize = line.len();
                let mut content: Vec<char> = Vec::new();
                for j in (t + 1)..len
                    invariant
                        t < len && len == line@.len(),
                        content@ == line@.subrange(t + 1, j as int),
                    decreases len - j,
                {
                    content.push(line.char_at(j));
                    proof {
                        assert(content@ =~= line@.subrange(t + 1, j + 1));
                    }
                }
                proof {
                    assert(line@.subrange(t + 1, len as int) =~= line@.skip(t + 1));
                }
                let content_str = Countable::from_chars(content).to_string();
                let lowered = lowercase(content_str.as_str());
                out.push(lowered);
                proof {
                    assert(out@.map_values(|s: String| s@) =~= extracted(lv.subrange(0, i as int))
                        + seq![lower_of(lv[i as int].skip(find_tab(lv[i as int]) + 1))]);
                    assert(out@.map_values(|s: String| s@) =~= extracted(
                        lv.subrange(0, i + 1),
                    ));
                }
            },
        }
    }
    proof {
        assert(lv.subrange(0, n as int) =~= lv);
    }
    if lines.len() > 0 && out.len() == 0 {
        return Err(AnalyserError::MalformedInput);
    }
    Ok(out)
}

/// Whether an archive member name is the sentences file: it ends in
/// `-sentences.txt`.
pub fn is_sentences_file(name: &String) -> (r: bool)
    ensures
        r == (name@.len() >= "-sentences.txt"@.len() && name@.skip(
            name@.len() - "-sentences.txt"@.len(),
        ) == "-sentences.txt"@),
{
    let pat = Countable::from_str_ref("-sentences.txt");
    let nm = Countable::from_string(name);
    let plen: usize = pat.len();
    let nlen: usize = nm.len();
    if nlen < plen {
        return false;
    }
    let start: usize = nlen - plen;
    for i in 0..plen
        invariant
            plen == pat@.len(),
            nlen == nm@.len(),
            plen <= nlen && start == nlen - plen,
            nm@ == name@ && pat@ == "-sentences.txt"@,
            forall|j: int| 0 <= j < i ==> nm@[start + j] == pat@[j],
    {
        if nm.char_at(start + i) != pat.char_at(i) {
            proof {
                assert(name@.skip(start as int)[i as int] != "-sentences.txt"@[i as int]);
            }
            return false;
        }
    }
    proof {
        assert(name@.skip(start as int) =~= "-sentences.txt"@);
    }
    true
}

} // verus!
