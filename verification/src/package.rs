use vstd::prelude::*;

use crate::text::{split_all, split_on, tokens, trim_ascii, trim_spaces};

verus! {

/// What one package-manifest line contributes: nothing for a blank line,
/// a comment, or a line of fewer than two tokens; otherwise the first
/// two whitespace-separated tokens, a partition name and a path.
pub open spec fn spec_pkg_line(line: Seq<u8>) -> Option<(Seq<u8>, Seq<u8>)> {
    let t = trim_spaces(line);
    if t.len() == 0 || t[0] == 35 {
        None
    } else {
        let tk = tokens(t);
        if tk.len() >= 2 {
            Some((tk[0], tk[1]))
        } else {
            None
        }
    }
}

/// The (name, path) pairs of a sequence of package-manifest lines.
pub open spec fn pkg_lines(ls: Seq<Seq<u8>>) -> Seq<(Seq<u8>, Seq<u8>)>
    decreases ls.len(),
{
    if ls.len() == 0 {
        Seq::empty()
    } else {
        match spec_pkg_line(ls[0]) {
            None => pkg_lines(ls.drop_first()),
            Some(e) => seq![e] + pkg_lines(ls.drop_first()),
        }
    }
}

/// The (name, path) pairs of a package-manifest text, in file order.
pub open spec fn spec_parse_package(text: Seq<u8>) -> Seq<(Seq<u8>, Seq<u8>)> {
    pkg_lines(split_on(text, 10))
}

/// Whether the exec pair list carries exactly the spec pairs.
pub open spec fn pkg_entries_match(v: Seq<(Vec<u8>, Vec<u8>)>, s: Seq<(Seq<u8>, Seq<u8>)>) -> bool {
    &&& v.len() == s.len()
    &&& forall|i: int| 0 <= i < v.len() ==> (#[trigger] v[i]).0@ == s[i].0 && v[i].1@ == s[i].1
}

/// Parse a package manifest: one `name path` pair per line, blank lines
/// and `#` comments ignored, extra tokens beyond the first two dropped.
pub fn parse_package_file(text: &Vec<u8>) -> (r: Vec<(Vec<u8>, Vec<u8>)>)
    ensures
        pkg_entries_match(r@, spec_parse_package(text@)),
{
    let lines = split_all(text, 10);
    let ghost ls = split_on(text@, 10);
    let n: usize = lines.len();
    let mut out: Vec<(Vec<u8>, Vec<u8>)> = Vec::new();
    let ghost mut cur = Seq::<(Seq<u8>, Seq<u8>)>::empty();
    proof {
        assert(ls.skip(0) =~= ls);
        assert(cur + pkg_lines(ls) =~= pkg_lines(ls));
    }
    let mut i: usize = 0;
    while i < n
        invariant
            i <= n == lines@.len(),
            ls == split_on(text@, 10),
            lines.deep_view() =~~= ls,
            pkg_entries_match(out@, cur),
            spec_parse_package(text@) == cur + pkg_lines(ls.skip(i as int)),
        decreases n - i,
    {
        let line = &lines[i];
        proof {
            assert(lines.deep_view()[i as int] == line@);
            assert(ls.skip(i as int)[0] == ls[i as int]);
            assert(ls.skip(i as int).drop_first() =~= ls.skip(i + 1));
        }
        let t = trim_ascii(line);
        if t.len() > 0 && t[0] != 35 {
            let tk = crate::text::split_tokens(&t);
            if tk.len() >= 2 {
                proof {
                    assert(tk.deep_view()[0] == tk@[0]@);
                    assert(tk.deep_view()[1] == tk@[1]@);
                }
                let name = crate::bytes::read_bytes(tk[0].as_slice(), 0, tk[0].len());
                let path = crate::bytes::read_bytes(tk[1].as_slice(), 0, tk[1].len());
                let ghost prev = cur;
                proof {
                    let e = (tk.deep_view()[0], tk.deep_view()[1]);
                    assert(spec_pkg_line(ls[i as int]) == Some(e));
                    cur = prev.push(e);
                    assert(prev + (seq![e] + pkg_lines(ls.skip(i + 1))) =~= (prev.push(e))
                        + pkg_lines(ls.skip(i + 1)));
                }
                out.push((name, path));
                proof {
                    assert(name@ =~= tk@[0]@);
                    assert(path@ =~= tk@[1]@);
                    assert(pkg_entries_match(out@, cur));
                }
            } else {
                proof {
                    assert(spec_pkg_line(ls[i as int]) is None);
                }
            }
        } else {
            proof {
                if t@.len() > 0 {
                    assert(spec_pkg_line(ls[i as int]) is None);
                } else {
                    assert(spec_pkg_line(ls[i as int]) is None);
                }
            }
        }
        i = i + 1;
    }
    proof {
        assert(ls.skip(n as int) =~= Seq::<Seq<u8>>::empty());
        assert(cur + Seq::<(Seq<u8>, Seq<u8>)>::empty() =~= cur);
    }
    out
}

/// The bytes of the `MACHINE_ID:` key.
pub open spec fn machine_id_key() -> Seq<u8> {
    seq![77u8, 65u8, 67u8, 72u8, 73u8, 78u8, 69u8, 95u8, 73u8, 68u8, 58u8]
}

/// The machine identifier of one parameter line: for a line starting
/// with the key, the text between the first and second colon, trimmed.
pub open spec fn spec_id_line(line: Seq<u8>) -> Option<Seq<u8>> {
    if line.len() >= machine_id_key().len() && line.take(machine_id_key().len() as int)
        == machine_id_key() {
        Some(trim_spaces(split_on(line, 58)[1]))
    } else {
        None
    }
}

/// The machine identifier of a sequence of parameter lines: the first
/// line carrying the key decides, possibly with an empty value.
pub open spec fn id_lines(ls: Seq<Seq<u8>>) -> Seq<u8>
    decreases ls.len(),
{
    if ls.len() == 0 {
        Seq::empty()
    } else {
        match spec_id_line(ls[0]) {
            Some(v) => v,
            None => id_lines(ls.drop_first()),
        }
    }
}

/// The machine identifier of a parameter text; empty when no line
/// carries the key or the value itself is empty.
pub open spec fn spec_machine_id(text: Seq<u8>) -> Seq<u8> {
    id_lines(split_on(text, 10))
}

/// Whether `line` begins with the `MACHINE_ID:` key.
fn starts_with_id_key(line: &Vec<u8>) -> (r: bool)
    ensures
        r == (line@.len() >= machine_id_key().len() && line@.take(machine_id_key().len() as int)
            == machine_id_key()),
{
    let key: [u8; 11] = [77u8, 65u8, 67u8, 72u8, 73u8, 78u8, 69u8, 95u8, 73u8, 68u8, 58u8];
    proof {
        assert(key@ =~= machine_id_key());
    }
    if line.len() < 11 {
        return false;
    }
    let mut k: usize = 0;
    while k < 11
        invariant
            k <= 11,
            key@ == machine_id_key(),
            line@.len() >= 11,
            forall|j: int| 0 <= j < k ==> line@[j] == machine_id_key()[j],
        decreases 11 - k,
    {
        if line[k] != key[k] {
            proof {
                if line@.take(11) == machine_id_key() {
                    assert(line@.take(11)[k as int] == line@[k as int]);
                }
            }
            return false;
        }
        k = k + 1;
    }
    proof {
        assert(line@.take(11) =~= machine_id_key());
    }
    true
}

/// Read the machine identifier from a parameter text.
pub fn parse_machine_id(text: &Vec<u8>) -> (r: Vec<u8>)
    ensures
        r@ =~= spec_machine_id(text@),
{
    let lines = split_all(text, 10);
    let ghost ls = split_on(text@, 10);
    let n: usize = lines.len();
    proof {
        assert(ls.skip(0) =~= ls);
    }
    let mut i: usize = 0;
    while i < n
        invariant
            i <= n == lines@.len(),
            ls == split_on(text@, 10),
            lines.deep_view() =~~= ls,
            spec_machine_id(text@) == id_lines(ls.skip(i as int)),
        decreases n - i,
    {
        let line = &lines[i];
        proof {
            assert(lines.deep_view()[i as int] == line@);
            assert(ls.skip(i as int)[0] == ls[i as int]);
            assert(ls.skip(i as int).drop_first() =~= ls.skip(i + 1));
        }
        if starts_with_id_key(line) {
            proof {
                assert(spec_id_line(ls[i as int]) is Some);
            }
            let segments = split_all(line, 58);
            proof {
                // The key ends in a colon, so the line splits into at
                // least two segments.
                crate::text::lemma_find_byte(line@, 58);
                match crate::text::find_byte(line@, 58) {
                    Some(p) => {
                        crate::text::lemma_split_on_len(line@.skip(p + 1), 58);
                    },
                    None => {
                        assert(line@.take(11)[10] == line@[10]);
                        assert(line@[10] == 58);
                    },
                }
                assert(split_on(line@, 58).len() >= 2);
                assert(segments.deep_view()[1] == segments@[1]@);
            }
            let value = trim_ascii(&segments[1]);
            proof {
                assert(value@ =~= spec_id_line(ls[i as int]).unwrap());
            }
            return value;
        }
        proof {
            assert(spec_id_line(ls[i as int]) is None);
        }
        i = i + 1;
    }
    proof {
        assert(ls.skip(n as int) =~= Seq::<Seq<u8>>::empty());
    }
    Vec::new()
}

} // verus!
