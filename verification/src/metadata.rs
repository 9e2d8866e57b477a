use vstd::prelude::*;

use crate::errors::Error;
use crate::text::{hex10, spec_radix16, split_all, split_on, strip_hex_prefix_lower, trim_ascii,
    trim_spaces};

verus! {

/// The geometry of one partition that packing must be given, never
/// derive: its flash region size and offset, and its padded size inside
/// the container.
#[derive(Clone, Copy, Debug, PartialEq, Eq, Structural)]
pub struct PartitionMetadata {
    pub flash_size: u32,
    pub flash_offset: u32,
    pub padded_size: u32,
}

/// What one metadata line contributes: a parse failure, nothing (blank
/// or too few fields), or one named geometry entry read from the hex
/// fields at positions two, three and five.
pub open spec fn spec_meta_line(line: Seq<u8>) -> Option<Option<(Seq<u8>, PartitionMetadata)>> {
    let t = trim_spaces(line);
    if t.len() == 0 {
        Some(None)
    } else {
        let fs = split_on(t, 44);
        if fs.len() >= 7 {
            let a = spec_radix16(strip_hex_prefix_lower(fs[2]));
            let b = spec_radix16(strip_hex_prefix_lower(fs[3]));
            let c = spec_radix16(strip_hex_prefix_lower(fs[5]));
            if a is Some && b is Some && c is Some {
                Some(
                    Some(
                        (
                            fs[0],
                            PartitionMetadata {
                                flash_size: a.unwrap(),
                                flash_offset: b.unwrap(),
                                padded_size: c.unwrap(),
                            },
                        ),
                    ),
                )
            } else {
                None
            }
        } else {
            Some(None)
        }
    }
}

/// The entries of a sequence of metadata lines, in order; `None` when
/// any line fails to parse.
pub open spec fn meta_lines(ls: Seq<Seq<u8>>) -> Option<Seq<(Seq<u8>, PartitionMetadata)>>
    decreases ls.len(),
{
    if ls.len() == 0 {
        Some(Seq::empty())
    } else {
        match spec_meta_line(ls[0]) {
            None => None,
            Some(None) => meta_lines(ls.drop_first()),
            Some(Some(e)) => match meta_lines(ls.drop_first()) {
                None => None,
                Some(rest) => Some(seq![e] + rest),
            },
        }
    }
}

/// The geometry entries of a metadata text, line by line.
pub open spec fn spec_parse_metadata(text: Seq<u8>) -> Option<Seq<(Seq<u8>, PartitionMetadata)>> {
    meta_lines(split_on(text, 10))
}

/// Whether the exec entry list carries exactly the spec entries.
pub open spec fn meta_entries_match(
    v: Seq<(Vec<u8>, PartitionMetadata)>,
    s: Seq<(Seq<u8>, PartitionMetadata)>,
) -> bool {
    &&& v.len() == s.len()
    &&& forall|i: int| 0 <= i < v.len() ==> (#[trigger] v[i]).0@ == s[i].0 && v[i].1 == s[i].1
}

/// Parse a metadata text: one geometry entry per line carrying at least
/// seven comma-separated fields, blank and shorter lines skipped, any
/// unreadable hex field failing the whole parse.
pub fn parse_partition_metadata(text: &Vec<u8>) -> (r: Result<
    Vec<(Vec<u8>, PartitionMetadata)>,
    Error,
>)
    ensures
        match r {
            Ok(v) => spec_parse_metadata(text@) matches Some(s) && meta_entries_match(v@, s),
            Err(e) => e == Error::MalformedManifestLine && spec_parse_metadata(text@) is None,
        },
{
    let lines = split_all(text, 10);
    let ghost ls = split_on(text@, 10);
    let n: usize = lines.len();
    let mut out: Vec<(Vec<u8>, PartitionMetadata)> = Vec::new();
    let ghost mut cur = Seq::<(Seq<u8>, PartitionMetadata)>::empty();
    proof {
        assert(ls.skip(0) =~= ls);
        match meta_lines(ls) {
            None => {},
            Some(rest) => {
                assert(cur + rest =~= rest);
            },
        }
    }
    let mut i: usize = 0;
    while i < n
        invariant
            i <= n == lines@.len(),
            ls == split_on(text@, 10),
            lines.deep_view() =~~= ls,
            meta_entries_match(out@, cur),
            match meta_lines(ls.skip(i as int)) {
                None => spec_parse_metadata(text@) is None,
                Some(rest) => spec_parse_metadata(text@) == Some(cur + rest),
            },
        decreases n - i,
    {
        let line = &lines[i];
        proof {
            assert(lines.deep_view()[i as int] == line@);
            assert(ls.skip(i as int)[0] == ls[i as int]);
            assert(ls.skip(i as int).drop_first() =~= ls.skip(i + 1));
        }
        let t = trim_ascii(line);
        if t.len() > 0 {
            let fields = split_all(&t, 44);
            if fields.len() >= 7 {
                proof {
                    assert(fields.deep_view()[2] == fields@[2]@);
                    assert(fields.deep_view()[3] == fields@[3]@);
                    assert(fields.deep_view()[5] == fields@[5]@);
                    assert(fields.deep_view()[0] == fields@[0]@);
                }
                let a = crate::text::parse_metadata_hex_field(&fields[2]);
                let b = crate::text::parse_metadata_hex_field(&fields[3]);
                let c = crate::text::parse_metadata_hex_field(&fields[5]);
                match (a, b, c) {
                    (Some(flash_size), Some(flash_offset), Some(padded_size)) => {
                        let ghost prev = cur;
                        let name = crate::bytes::read_bytes(fields[0].as_slice(), 0, fields[0].len());
                        let meta = PartitionMetadata { flash_size, flash_offset, padded_size };
                        proof {
                            let e = (fields.deep_view()[0], meta);
                            assert(spec_meta_line(ls[i as int]) == Some(Some(e)));
                            cur = prev.push(e);
                            assert(prev + (seq![e] + meta_lines(ls.skip(i + 1)).unwrap()) =~= (
                            prev.push(e)) + meta_lines(ls.skip(i + 1)).unwrap());
                        }
                        out.push((name, meta));
                        proof {
                            assert(name@ =~= fields@[0]@);
                            assert(meta_entries_match(out@, cur));
                            match meta_lines(ls.skip(i + 1)) {
                                None => {},
                                Some(rest) => {
                                    assert(cur + rest =~= prev + (seq![
                                        (fields.deep_view()[0], meta),
                                    ] + rest));
                                },
                            }
                        }
                    },
                    _ => {
                        proof {
                            assert(spec_meta_line(ls[i as int]) is None);
                        }
                        return Err(Error::MalformedManifestLine);
                    },
                }
            } else {
                proof {
                    assert(spec_meta_line(ls[i as int]) == Some(
                        None::<(Seq<u8>, PartitionMetadata)>,
                    ));
                }
            }
        } else {
            proof {
                assert(spec_meta_line(ls[i as int]) == Some(None::<(Seq<u8>, PartitionMetadata)>));
            }
        }
        i = i + 1;
    }
    proof {
        assert(ls.skip(n as int) =~= Seq::<Seq<u8>>::empty());
        assert(cur + Seq::<(Seq<u8>, PartitionMetadata)>::empty() =~= cur);
    }
    Ok(out)
}

/// The geometry recorded under `name`, later lines overriding earlier
/// ones as repeated inserts would.
pub open spec fn spec_meta_lookup(s: Seq<(Seq<u8>, PartitionMetadata)>, name: Seq<u8>) -> Option<
    PartitionMetadata,
>
    decreases s.len(),
{
    if s.len() == 0 {
        None
    } else if s.last().0 == name {
        Some(s.last().1)
    } else {
        spec_meta_lookup(s.drop_last(), name)
    }
}

/// Look up the geometry recorded under `name`.
pub fn meta_lookup(entries: &Vec<(Vec<u8>, PartitionMetadata)>, name: &Vec<u8>) -> (r: Option<
    PartitionMetadata,
>)
    ensures
        forall|s: Seq<(Seq<u8>, PartitionMetadata)>|
            meta_entries_match(entries@, s) ==> r == spec_meta_lookup(s, name@),
{
    let n: usize = entries.len();
    proof {
        assert forall|s: Seq<(Seq<u8>, PartitionMetadata)>|
            meta_entries_match(entries@, s) implies spec_meta_lookup(s, name@)
            == spec_meta_lookup(s.take(n as int), name@) by {
            assert(s.take(n as int) =~= s);
        }
    }
    let mut i: usize = n;
    while i > 0
        invariant
            i <= n == entries@.len(),
            forall|s: Seq<(Seq<u8>, PartitionMetadata)>|
                meta_entries_match(entries@, s) ==> spec_meta_lookup(s, name@)
                    == spec_meta_lookup(s.take(i as int), name@),
        decreases i,
    {
        i = i - 1;
        if crate::bytes::bytes_equal(&entries[i].0, name) {
            proof {
                assert forall|s: Seq<(Seq<u8>, PartitionMetadata)>|
                    meta_entries_match(entries@, s) implies spec_meta_lookup(s, name@) == Some(
                    entries@[i as int].1,
                ) by {
                    assert(s.take(i + 1).last() == s[i as int]);
                    assert(s[i as int].0 == entries@[i as int].0@);
                }
            }
            return Some(entries[i].1);
        }
        proof {
            assert forall|s: Seq<(Seq<u8>, PartitionMetadata)>|
                meta_entries_match(entries@, s) implies spec_meta_lookup(s.take(i + 1), name@)
                == spec_meta_lookup(s.take(i as int), name@) by {
                assert(s.take(i + 1).last() == s[i as int]);
                assert(s[i as int].0 == entries@[i as int].0@);
                assert(s.take(i + 1).drop_last() =~= s.take(i as int));
            }
        }
    }
    proof {
        assert forall|s: Seq<(Seq<u8>, PartitionMetadata)>|
            meta_entries_match(entries@, s) implies spec_meta_lookup(s, name@) is None by {
            assert(s.take(0) =~= Seq::<(Seq<u8>, PartitionMetadata)>::empty());
        }
    }
    None
}

/// One exported metadata line: name, path, then the five geometry and
/// location fields rendered in hex, a newline at the end.
pub open spec fn spec_meta_line_out(
    name: Seq<u8>,
    path: Seq<u8>,
    flash_size: u32,
    flash_offset: u32,
    part_offset: u32,
    padded_size: u32,
    byte_count: u32,
) -> Seq<u8> {
    name + seq![44u8] + path + seq![44u8] + hex10(flash_size) + seq![44u8] + hex10(flash_offset)
        + seq![44u8] + hex10(part_offset) + seq![44u8] + hex10(padded_size) + seq![44u8] + hex10(
        byte_count,
    ) + seq![10u8]
}

/// Render one metadata line.
pub fn format_meta_line(
    name: &Vec<u8>,
    path: &Vec<u8>,
    flash_size: u32,
    flash_offset: u32,
    part_offset: u32,
    padded_size: u32,
    byte_count: u32,
) -> (r: Vec<u8>)
    ensures
        r@ =~= spec_meta_line_out(
            name@,
            path@,
            flash_size,
            flash_offset,
            part_offset,
            padded_size,
            byte_count,
        ),
{
    let mut out: Vec<u8> = Vec::new();
    crate::bytes::push_bytes(&mut out, name);
    out.push(44u8);
    crate::bytes::push_bytes(&mut out, path);
    out.push(44u8);
    let f = crate::text::format_hex_u32(flash_size);
    crate::bytes::push_bytes(&mut out, &f);
    out.push(44u8);
    let f = crate::text::format_hex_u32(flash_offset);
    crate::bytes::push_bytes(&mut out, &f);
    out.push(44u8);
    let f = crate::text::format_hex_u32(part_offset);
    crate::bytes::push_bytes(&mut out, &f);
    out.push(44u8);
    let f = crate::text::format_hex_u32(padded_size);
    crate::bytes::push_bytes(&mut out, &f);
    out.push(44u8);
    let f = crate::text::format_hex_u32(byte_count);
    crate::bytes::push_bytes(&mut out, &f);
    out.push(10u8);
    out
}

/// Parsing one rendered metadata line, its trailing newline stripped as
/// the line splitter strips it, recovers the entry's name and geometry.
pub proof fn lemma_meta_line_roundtrip(
    name: Seq<u8>,
    path: Seq<u8>,
    flash_size: u32,
    flash_offset: u32,
    part_offset: u32,
    padded_size: u32,
    byte_count: u32,
)
    requires
        forall|j: int| 0 <= j < name.len() ==> name[j] != 44 && name[j] != 10,
        forall|j: int| 0 <= j < path.len() ==> path[j] != 44 && path[j] != 10,
        name.len() > 0 ==> !crate::text::is_space(name[0]),
    ensures
        spec_meta_line(
            spec_meta_line_out(
                name,
                path,
                flash_size,
                flash_offset,
                part_offset,
                padded_size,
                byte_count,
            ).drop_last(),
        ) == Some(
            Some(
                (
                    name,
                    PartitionMetadata {
                        flash_size,
                        flash_offset,
                        padded_size,
                    },
                ),
            ),
        ),
{
    let line = spec_meta_line_out(
        name,
        path,
        flash_size,
        flash_offset,
        part_offset,
        padded_size,
        byte_count,
    );
    let body = line.drop_last();
    crate::text::lemma_hex10_bytes(flash_size);
    crate::text::lemma_hex10_bytes(flash_offset);
    crate::text::lemma_hex10_bytes(part_offset);
    crate::text::lemma_hex10_bytes(padded_size);
    crate::text::lemma_hex10_bytes(byte_count);
    let b5 = hex10(byte_count);
    let b4 = hex10(padded_size) + seq![44u8] + b5;
    let b3 = hex10(part_offset) + seq![44u8] + b4;
    let b2 = hex10(flash_offset) + seq![44u8] + b3;
    let b1 = hex10(flash_size) + seq![44u8] + b2;
    let b0 = path + seq![44u8] + b1;
    assert(body =~= name + seq![44u8] + b0);
    // The line has no whitespace at either end, so the trim keeps it.
    assert(body.len() > 0);
    assert(body.last() == b5[9]);
    assert(!crate::text::is_space(body.last()));
    if name.len() > 0 {
        assert(body[0] == name[0]);
    } else {
        assert(body[0] == 44u8);
    }
    crate::text::lemma_trim_noop(body);
    // Peel the six separators, then the last hex field stands alone.
    crate::text::lemma_split_join(name, b0, 44);
    crate::text::lemma_split_join(path, b1, 44);
    crate::text::lemma_split_join(hex10(flash_size), b2, 44);
    crate::text::lemma_split_join(hex10(flash_offset), b3, 44);
    crate::text::lemma_split_join(hex10(part_offset), b4, 44);
    crate::text::lemma_split_join(hex10(padded_size), b5, 44);
    crate::text::lemma_split_single(b5, 44);
    let fields = split_on(body, 44);
    assert(fields =~= seq![
        name,
        path,
        hex10(flash_size),
        hex10(flash_offset),
        hex10(part_offset),
        hex10(padded_size),
        hex10(byte_count),
    ]);
    crate::text::lemma_hex10_roundtrip(flash_size);
    crate::text::lemma_hex10_roundtrip(flash_offset);
    crate::text::lemma_hex10_roundtrip(padded_size);
}

/// Looking up any entry of a list with pairwise-distinct names returns
/// that entry's geometry.
pub proof fn lemma_meta_lookup_distinct(s: Seq<(Seq<u8>, PartitionMetadata)>, i: int)
    requires
        0 <= i < s.len(),
        forall|j1: int, j2: int|
            #![trigger s[j1], s[j2]]
            0 <= j1 < j2 < s.len() ==> s[j1].0 != s[j2].0,
    ensures
        spec_meta_lookup(s, s[i].0) == Some(s[i].1),
    decreases s.len(),
{
    if i == s.len() - 1 {
        assert(s.last() == s[i]);
    } else {
        assert(s[i].0 != s.last().0);
        assert forall|j1: int, j2: int|
            #![trigger s.drop_last()[j1], s.drop_last()[j2]]
            0 <= j1 < j2 < s.drop_last().len() implies s.drop_last()[j1].0
            != s.drop_last()[j2].0 by {
            assert(s.drop_last()[j1] == s[j1] && s.drop_last()[j2] == s[j2]);
        }
        lemma_meta_lookup_distinct(s.drop_last(), i);
        assert(s.drop_last()[i] == s[i]);
    }
}

/// One exportable geometry record: name, path, and the five rendered
/// fields in line order.
pub open spec fn lines_out(items: Seq<(Seq<u8>, Seq<u8>, u32, u32, u32, u32, u32)>) -> Seq<u8>
    decreases items.len(),
{
    if items.len() == 0 {
        Seq::empty()
    } else {
        spec_meta_line_out(
            items[0].0,
            items[0].1,
            items[0].2,
            items[0].3,
            items[0].4,
            items[0].5,
            items[0].6,
        ) + lines_out(items.drop_first())
    }
}

/// Whether a record's name and path can cross the line format unharmed:
/// no field separator, no line break, no leading whitespace on the name.
pub open spec fn clean_item(it: (Seq<u8>, Seq<u8>, u32, u32, u32, u32, u32)) -> bool {
    &&& forall|j: int| 0 <= j < it.0.len() ==> it.0[j] != 44 && it.0[j] != 10
    &&& forall|j: int| 0 <= j < it.1.len() ==> it.1[j] != 44 && it.1[j] != 10
    &&& it.0.len() > 0 ==> !crate::text::is_space(it.0[0])
}

/// No byte of a rendered line but its final newline is a newline.
proof fn lemma_meta_line_no_newline(it: (Seq<u8>, Seq<u8>, u32, u32, u32, u32, u32))
    requires
        clean_item(it),
    ensures
        ({
            let line = spec_meta_line_out(it.0, it.1, it.2, it.3, it.4, it.5, it.6);
            &&& line.len() > 0
            &&& line.last() == 10u8
            &&& forall|j: int| 0 <= j < line.len() - 1 ==> line[j] != 10
        }),
{
    let line = spec_meta_line_out(it.0, it.1, it.2, it.3, it.4, it.5, it.6);
    crate::text::lemma_hex10_bytes(it.2);
    crate::text::lemma_hex10_bytes(it.3);
    crate::text::lemma_hex10_bytes(it.4);
    crate::text::lemma_hex10_bytes(it.5);
    crate::text::lemma_hex10_bytes(it.6);
    let name = it.0;
    let path = it.1;
    assert forall|j: int| 0 <= j < line.len() - 1 implies line[j] != 10 by {
        let n0 = name.len() as int;
        let p0 = n0 + 1 + path.len();
        if j < n0 {
            assert(line[j] == name[j]);
        } else if j == n0 {
            assert(line[j] == 44u8);
        } else if j < p0 {
            assert(line[j] == path[j - n0 - 1]);
        } else {
            // The tail is five rendered fields and their separators.
            let r = j - p0;
            if r % 11 == 0 {
                assert(line[j] == 44u8);
            } else {
                let field = r / 11;
                let inside = r % 11 - 1;
                vstd::arithmetic::div_mod::lemma_fundamental_div_mod(r, 11);
                vstd::arithmetic::div_mod::lemma_mod_bound(r, 11);
                if field == 0 {
                    assert(line[j] == hex10(it.2)[inside]);
                    assert(crate::text::is_hex_text_byte(hex10(it.2)[inside]));
                } else if field == 1 {
                    assert(line[j] == hex10(it.3)[inside]);
                    assert(crate::text::is_hex_text_byte(hex10(it.3)[inside]));
                } else if field == 2 {
                    assert(line[j] == hex10(it.4)[inside]);
                    assert(crate::text::is_hex_text_byte(hex10(it.4)[inside]));
                } else if field == 3 {
                    assert(line[j] == hex10(it.5)[inside]);
                    assert(crate::text::is_hex_text_byte(hex10(it.5)[inside]));
                } else {
                    assert(line[j] == hex10(it.6)[inside]);
                    assert(crate::text::is_hex_text_byte(hex10(it.6)[inside]));
                }
            }
        }
    }
}

/// Round trip of the whole manifest text: parsing the rendered lines
/// recovers every record's name and geometry, in order.
pub proof fn lemma_meta_text_roundtrip(items: Seq<(Seq<u8>, Seq<u8>, u32, u32, u32, u32, u32)>)
    requires
        forall|i: int| 0 <= i < items.len() ==> clean_item(#[trigger] items[i]),
    ensures
        spec_parse_metadata(lines_out(items)) == Some(
            Seq::new(
                items.len(),
                |i: int|
                    (
                        items[i].0,
                        PartitionMetadata {
                            flash_size: items[i].2,
                            flash_offset: items[i].3,
                            padded_size: items[i].5,
                        },
                    ),
            ),
        ),
    decreases items.len(),
{
    let want = Seq::new(
        items.len(),
        |i: int|
            (
                items[i].0,
                PartitionMetadata {
                    flash_size: items[i].2,
                    flash_offset: items[i].3,
                    padded_size: items[i].5,
                },
            ),
    );
    if items.len() == 0 {
        let ls = split_on(Seq::<u8>::empty(), 10);
        crate::text::lemma_split_single(Seq::<u8>::empty(), 10);
        assert(ls == seq![Seq::<u8>::empty()]);
        assert(trim_spaces(Seq::<u8>::empty()).len() == 0);
        assert(spec_meta_line(ls[0]) == Some(None::<(Seq<u8>, PartitionMetadata)>));
        assert(ls.drop_first() =~= Seq::<Seq<u8>>::empty());
        assert(meta_lines(Seq::<Seq<u8>>::empty()) == Some(
            Seq::<(Seq<u8>, PartitionMetadata)>::empty(),
        ));
        assert(want =~= Seq::<(Seq<u8>, PartitionMetadata)>::empty());
    } else {
        let it = items[0];
        assert(clean_item(it));
        let line = spec_meta_line_out(it.0, it.1, it.2, it.3, it.4, it.5, it.6);
        let body = line.drop_last();
        let rest = lines_out(items.drop_first());
        lemma_meta_line_no_newline(it);
        assert(lines_out(items) =~= body + seq![10u8] + rest);
        assert forall|j: int| 0 <= j < body.len() implies body[j] != 10 by {
            assert(body[j] == line[j]);
        }
        crate::text::lemma_split_join(body, rest, 10);
        lemma_meta_line_roundtrip(it.0, it.1, it.2, it.3, it.4, it.5, it.6);
        assert forall|i: int| 0 <= i < items.drop_first().len() implies clean_item(
            #[trigger] items.drop_first()[i],
        ) by {
            assert(items.drop_first()[i] == items[i + 1]);
        }
        lemma_meta_text_roundtrip(items.drop_first());
        let ls = split_on(lines_out(items), 10);
        assert(ls[0] == body);
        assert(ls.drop_first() =~= split_on(rest, 10));
        let e = (
            it.0,
            PartitionMetadata { flash_size: it.2, flash_offset: it.3, padded_size: it.5 },
        );
        assert(spec_meta_line(ls[0]) == Some(Some(e)));
        let tail = Seq::new(
            items.drop_first().len(),
            |i: int|
                (
                    items.drop_first()[i].0,
                    PartitionMetadata {
                        flash_size: items.drop_first()[i].2,
                        flash_offset: items.drop_first()[i].3,
                        padded_size: items.drop_first()[i].5,
                    },
                ),
        );
        let got = meta_lines(split_on(rest, 10));
        assert(got is Some);
        assert forall|i2: int| 0 <= i2 < tail.len() implies got.unwrap()[i2] == tail[i2] by {
            assert(items.drop_first()[i2] == items[i2 + 1]);
        }
        assert(got.unwrap() =~= tail);
        assert(meta_lines(ls) == Some(seq![e] + tail));
        assert(seq![e] + tail =~= want);
        assert(spec_parse_metadata(lines_out(items)) == Some(want));
    }
}

} // verus!
