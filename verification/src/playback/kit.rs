//! The kit page's four-character Part labels and its title line.
//!
//! A label names a Part in four characters: the drum names have their own, any other id gives
//! its first four ASCII letters and digits. Labels that would be empty or that two Parts would
//! share, ignoring ASCII case, fall back to the Part's number, `P01` onwards; if even then two
//! labels coincide, every Part is shown by number.
use vstd::prelude::*;

use super::controller::{packet, packet_of};
use crate::text::{decimal, push_decimal, same_text};

verus! {

pub open spec fn is_ascii_alnum(c: char) -> bool {
    ('0' <= c <= '9') || ('a' <= c <= 'z') || ('A' <= c <= 'Z')
}

/// The ASCII letters and digits of `s`, in order.
pub open spec fn alnum_of(s: Seq<char>) -> Seq<char>
    decreases s.len(),
{
    if s.len() == 0 {
        Seq::empty()
    } else if is_ascii_alnum(s.last()) {
        alnum_of(s.drop_last()).push(s.last())
    } else {
        alnum_of(s.drop_last())
    }
}

/// The label an id asks for, before clashes are settled.
pub open spec fn own_label(id: Seq<char>) -> Seq<char> {
    if id == "kick"@ {
        "Kick"@
    } else if id == "closed_hat"@ {
        "CHat"@
    } else if id == "open_hat"@ {
        "OHat"@
    } else if id == "snare"@ {
        "Snar"@
    } else {
        let a = alnum_of(id);
        if a.len() > 4 { a.take(4) } else { a }
    }
}

/// The code of `c` with ASCII capitals folded to small letters.
pub open spec fn ascii_fold(c: char) -> u32 {
    if 'A' <= c <= 'Z' { (c as u32 + 32) as u32 } else { c as u32 }
}

/// The same text when ASCII case is ignored.
pub open spec fn same_ignoring_case(a: Seq<char>, b: Seq<char>) -> bool {
    &&& a.len() == b.len()
    &&& forall|k: int| 0 <= k < a.len() ==> #[trigger] ascii_fold(a[k]) == ascii_fold(b[k])
}

/// The numbered label of the Part at index `i`: `P` and its one-based number, two digits at
/// least.
pub open spec fn numbered(i: int) -> Seq<char> {
    let n = (i + 1) as nat;
    if n < 10 { "P0"@ + decimal(n) } else { "P"@ + decimal(n) }
}

/// Another label in `ls` is the same as the one at `i`, ignoring case.
pub open spec fn shared(ls: Seq<Seq<char>>, i: int) -> bool {
    exists|j: int| 0 <= j < ls.len() && j != i && #[trigger] same_ignoring_case(ls[j], ls[i])
}

pub open spec fn any_shared(ls: Seq<Seq<char>>) -> bool {
    exists|i: int, j: int| 0 <= i < j < ls.len() && #[trigger] same_ignoring_case(ls[i], ls[j])
}

pub open spec fn own_labels(ids: Seq<Seq<char>>) -> Seq<Seq<char>> {
    Seq::new(ids.len(), |i: int| own_label(ids[i]))
}

/// Own labels, with the empty and the shared ones numbered.
pub open spec fn settled_labels(ids: Seq<Seq<char>>) -> Seq<Seq<char>> {
    let own = own_labels(ids);
    Seq::new(ids.len(), |i: int| if own[i].len() == 0 || shared(own, i) { numbered(i) } else { own[i] })
}

/// The labels shown for Parts with ids `ids`.
pub open spec fn kit_labels(ids: Seq<Seq<char>>) -> Seq<Seq<char>> {
    let s = settled_labels(ids);
    if any_shared(s) {
        Seq::new(ids.len(), |i: int| numbered(i))
    } else {
        s
    }
}

pub open spec fn texts(v: Seq<String>) -> Seq<Seq<char>> {
    Seq::new(v.len(), |i: int| v[i]@)
}

fn own(id: &str) -> (r: String)
    ensures
        r@ == own_label(id@),
{
    proof {
        reveal_strlit("kick");
        reveal_strlit("Kick");
        reveal_strlit("closed_hat");
        reveal_strlit("CHat");
        reveal_strlit("open_hat");
        reveal_strlit("OHat");
        reveal_strlit("snare");
        reveal_strlit("Snar");
    }
    if same_text(id, "kick") {
        return String::from_str("Kick");
    }
    if same_text(id, "closed_hat") {
        return String::from_str("CHat");
    }
    if same_text(id, "open_hat") {
        return String::from_str("OHat");
    }
    if same_text(id, "snare") {
        return String::from_str("Snar");
    }
    let n = id.unicode_len();
    let mut out = String::new();
    let mut i: usize = 0;
    while i < n
        invariant
            n == id@.len(),
            i <= n,
            out@ == (if alnum_of(id@.take(i as int)).len() > 4 {
                alnum_of(id@.take(i as int)).take(4)
            } else {
                alnum_of(id@.take(i as int))
            }),
        decreases n - i,
    {
        let c = id.get_char(i);
        let ghost before = alnum_of(id@.take(i as int));
        proof {
            assert(id@.take(i + 1).drop_last() =~= id@.take(i as int));
            assert(id@.take(i + 1).last() == c);
        }
        let ok = ('0' <= c && c <= '9') || ('a' <= c && c <= 'z') || ('A' <= c && c <= 'Z');
        if ok && out.unicode_len() < 4 {
            let piece = id.substring_char(i, i + 1);
            out.append(piece);
            proof {
                assert(piece@ =~= seq![c]);
                assert(alnum_of(id@.take(i + 1)) == before.push(c));
                assert(before.len() < 4);
                assert(out@ =~= before.push(c));
            }
        } else if ok {
            proof {
                assert(alnum_of(id@.take(i + 1)) == before.push(c));
                assert(before.push(c).take(4) =~= before.take(4));
            }
        }
        i += 1;
    }
    proof {
        assert(id@.take(n as int) =~= id@);
    }
    out
}

fn fold(c: char) -> (r: u32)
    ensures
        r == ascii_fold(c),
{
    if 'A' <= c && c <= 'Z' {
        (c as u32) + 32
    } else {
        c as u32
    }
}

fn same_case_blind(a: &str, b: &str) -> (r: bool)
    ensures
        r == same_ignoring_case(a@, b@),
{
    let n = a.unicode_len();
    if n != b.unicode_len() {
        return false;
    }
    let mut k: usize = 0;
    while k < n
        invariant
            n == a@.len(),
            n == b@.len(),
            k <= n,
            forall|m: int| 0 <= m < k ==> #[trigger] ascii_fold(a@[m]) == ascii_fold(b@[m]),
        decreases n - k,
    {
        if fold(a.get_char(k)) != fold(b.get_char(k)) {
            return false;
        }
        k += 1;
    }
    true
}

fn number_label(i: usize) -> (r: String)
    requires
        i < usize::MAX,
    ensures
        r@ == numbered(i as int),
{
    proof {
        reveal_strlit("P0");
        reveal_strlit("P");
    }
    let n = i + 1;
    let mut s = if n < 10 { String::from_str("P0") } else { String::from_str("P") };
    push_decimal(&mut s, n as u128);
    s
}

/// The four-character labels of Parts with ids `ids`, in order.
pub fn labels(ids: &Vec<String>) -> (r: Vec<String>)
    ensures
        texts(r@) == kit_labels(texts(ids@)),
{
    let ghost g = texts(ids@);
    let ghost own_ls = own_labels(g);
    let mut own_v: Vec<String> = Vec::new();
    let mut i: usize = 0;
    while i < ids.len()
        invariant
            g == texts(ids@),
            own_ls == own_labels(g),
            i <= ids@.len(),
            own_v@.len() == i,
            forall|j: int| 0 <= j < i ==> (#[trigger] own_v@[j])@ == own_ls[j],
        decreases ids@.len() - i,
    {
        let l = own(ids[i].as_str());
        own_v.push(l);
        i += 1;
    }
    proof {
        assert(texts(own_v@) =~= own_ls);
    }
    let ghost settled = settled_labels(g);
    let mut result: Vec<String> = Vec::new();
    let mut i: usize = 0;
    while i < own_v.len()
        invariant
            g == texts(ids@),
            own_ls == own_labels(g),
            settled == settled_labels(g),
            texts(own_v@) == own_ls,
            own_v@.len() == ids@.len(),
            i <= own_v@.len(),
            result@.len() == i,
            forall|j: int| 0 <= j < i ==> (#[trigger] result@[j])@ == settled[j],
        decreases own_v@.len() - i,
    {
        let mut clash = false;
        let mut j: usize = 0;
        while j < own_v.len()
            invariant
                texts(own_v@) == own_ls,
                i < own_v@.len(),
                j <= own_v@.len(),
                clash == exists|m: int| 0 <= m < j && m != i && #[trigger] same_ignoring_case(own_ls[m], own_ls[i as int]),
            decreases own_v@.len() - j,
        {
            if j != i && same_case_blind(own_v[j].as_str(), own_v[i].as_str()) {
                clash = true;
            }
            proof {
                assert(own_v@[j as int]@ == own_ls[j as int]);
                assert(own_v@[i as int]@ == own_ls[i as int]);
                if !clash {
                    assert forall|m: int| 0 <= m < j + 1 && m != i implies !#[trigger] same_ignoring_case(own_ls[m], own_ls[i as int]) by {
                        if m == j {
                            assert(!same_ignoring_case(own_ls[j as int], own_ls[i as int]));
                        }
                    }
                } else {
                    if !(j != i && same_ignoring_case(own_ls[j as int], own_ls[i as int])) {
                        let m = choose|m: int| 0 <= m < j && m != i && #[trigger] same_ignoring_case(own_ls[m], own_ls[i as int]);
                        assert(0 <= m < j + 1);
                    }
                }
            }
            j += 1;
        }
        proof {
            assert(own_v@[i as int]@ == own_ls[i as int]);
            assert(clash == shared(own_ls, i as int));
        }
        if own_v[i].unicode_len() == 0 || clash {
            result.push(number_label(i));
        } else {
            let l = String::from_str(own_v[i].as_str());
            result.push(l);
        }
        i += 1;
    }
    let mut any = false;
    let mut a: usize = 0;
    while a < result.len()
        invariant
            forall|j: int| 0 <= j < result@.len() ==> (#[trigger] result@[j])@ == settled[j],
            a <= result@.len(),
            any == exists|x: int, y: int| 0 <= x < a && x < y < result@.len() && #[trigger] same_ignoring_case(settled[x], settled[y]),
        decreases result@.len() - a,
    {
        let mut b: usize = a + 1;
        while b < result.len()
            invariant
                forall|j: int| 0 <= j < result@.len() ==> (#[trigger] result@[j])@ == settled[j],
                a < result@.len(),
                a + 1 <= b <= result@.len(),
                any == ((exists|x: int, y: int| 0 <= x < a && x < y < result@.len() && #[trigger] same_ignoring_case(settled[x], settled[y]))
                    || (exists|y: int| a < y < b && #[trigger] same_ignoring_case(settled[a as int], settled[y]))),
            decreases result@.len() - b,
        {
            if same_case_blind(result[a].as_str(), result[b].as_str()) {
                any = true;
            }
            proof {
                assert(result@[a as int]@ == settled[a as int]);
                assert(result@[b as int]@ == settled[b as int]);
            }
            b += 1;
        }
        proof {
            if any {
                if exists|y: int| a < y < b && #[trigger] same_ignoring_case(settled[a as int], settled[y]) {
                    let y = choose|y: int| a < y < b && #[trigger] same_ignoring_case(settled[a as int], settled[y]);
                    assert(0 <= a < a + 1 && a < y < result@.len() && same_ignoring_case(settled[a as int], settled[y]));
                }
            } else {
                assert(b == result@.len());
                assert forall|x: int, y: int| 0 <= x < a + 1 && x < y < result@.len() implies !#[trigger] same_ignoring_case(settled[x], settled[y]) by {
                    if x == a {
                        assert(a < y < b);
                        assert(!same_ignoring_case(settled[a as int], settled[y]));
                    } else {
                        assert(0 <= x < a && x < y < result@.len());
                    }
                }
            }
        }
        a += 1;
    }
    proof {
        assert(texts(result@) =~= settled);
        assert(any == any_shared(settled));
    }
    if any {
        let mut numbered_v: Vec<String> = Vec::new();
        let mut i: usize = 0;
        while i < ids.len()
            invariant
                i <= ids@.len(),
                numbered_v@.len() == i,
                forall|j: int| 0 <= j < i ==> (#[trigger] numbered_v@[j])@ == numbered(j),
            decreases ids@.len() - i,
        {
            numbered_v.push(number_label(i));
            i += 1;
        }
        proof {
            assert(texts(numbered_v@) =~= Seq::new(g.len(), |i: int| numbered(i)));
        }
        return numbered_v;
    }
    result
}

/// The kit page's title: the selected Part, starred while an edit is pending, on the edit page
/// (2); `Kit 1 / ` or `Kit 2 / ` and the Part on the kit pages.
pub open spec fn title_text(page: u8, part: Seq<char>, pending: bool) -> Seq<char> {
    if page == 2 {
        (if pending { "* "@ } else { Seq::<char>::empty() }) + part
    } else {
        (if page == 3 { "Kit 2 / "@ } else { "Kit 1 / "@ }) + part
    }
}

/// A character as the display shows it: printable ASCII and space as themselves, anything else
/// as `?`.
pub open spec fn display_byte(c: char) -> u8 {
    if ('!' <= c <= '~') || c == ' ' { c as u8 } else { 0x3fu8 }
}

/// The first fifteen characters of `text` as display bytes, padded with spaces to fifteen.
pub open spec fn title_bytes(text: Seq<char>) -> Seq<u8> {
    Seq::new(15, |k: int| if k < text.len() { display_byte(text[k]) } else { 0x20u8 })
}

pub open spec fn title_packet_of(generation: u16, page: u8, part: Seq<char>, pending: bool) -> Seq<u8> {
    packet_of(7, seq![(generation / 128) as u8, (generation % 128) as u8, page] + title_bytes(title_text(page, part, pending)))
}

/// The title message of a kit page.
pub fn title_packet(generation: u16, page: u8, part: &str, pending: bool) -> (r: Vec<u8>)
    ensures
        r@ == title_packet_of(generation, page, part@, pending),
{
    proof {
        reveal_strlit("* ");
        reveal_strlit("Kit 2 / ");
        reveal_strlit("Kit 1 / ");
    }
    let mut title = if page == 2 {
        if pending { String::from_str("* ") } else { String::new() }
    } else if page == 3 {
        String::from_str("Kit 2 / ")
    } else {
        String::from_str("Kit 1 / ")
    };
    title.append(part);
    proof {
        assert(title@ =~= title_text(page, part@, pending));
    }
    let mut body: Vec<u8> = Vec::new();
    body.push((generation / 128) as u8);
    body.push((generation % 128) as u8);
    body.push(page);
    let n = title.unicode_len();
    let mut k: usize = 0;
    while k < 15
        invariant
            k <= 15,
            n == title@.len(),
            title@ == title_text(page, part@, pending),
            body@.len() == 3 + k,
            body@.subrange(0, 3) == seq![(generation / 128) as u8, (generation % 128) as u8, page],
            forall|j: int| 0 <= j < k ==> #[trigger] body@[3 + j] == title_bytes(title@)[j],
        decreases 15 - k,
    {
        let b: u8 = if k < n {
            let c = title.get_char(k);
            if ('!' <= c && c <= '~') || c == ' ' { c as u8 } else { 0x3f }
        } else {
            0x20
        };
        let ghost before = body@;
        body.push(b);
        proof {
            assert(body@.subrange(0, 3) =~= before.subrange(0, 3));
        }
        k += 1;
    }
    proof {
        let head = seq![(generation / 128) as u8, (generation % 128) as u8, page];
        let want = head + title_bytes(title@);
        assert forall|j: int| 0 <= j < want.len() implies body@[j] == want[j] by {
            if j < 3 {
                assert(body@.subrange(0, 3)[j] == head[j]);
            } else {
                assert(body@[3 + (j - 3)] == title_bytes(title@)[j - 3]);
            }
        }
        assert(body@ =~= want);
    }
    packet(7, body.as_slice())
}

} // verus!
