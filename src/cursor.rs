//! The pagination cursor: reading the next page number from a `link` header
//! value, and rendering the request path of a page.
use vstd::prelude::*;

verus! {

/// The value of query parameter `key` in the URI of the entry whose `rel` is
/// `rel`, as `parse_link_header::parse` reads a `link` header value; `None`
/// if the value does not parse, or has no such entry or parameter.
pub uninterp spec fn link_query(link: Seq<char>, rel: Seq<char>, key: Seq<char>) -> Option<Seq<char>>;

/// Relies on `parse_link_header::parse`, whose map of entries keyed by `rel`
/// each carry the URI's query parameters; the result is looked up in it.
#[verifier::external_body]
fn link_query_value(link: &str, rel: &str, key: &str) -> (r: Option<String>)
    ensures
        match r {
            Some(q) => link_query(link@, rel@, key@) == Some(q@),
            None => link_query(link@, rel@, key@) is None,
        },
{
    let links = parse_link_header::parse(link).ok()?;
    let entry = links.get(&Some(rel.to_string()))?;
    entry.queries.get(key).cloned()
}

/// The `page` query parameter of the entry with `rel="next"` in a `link`
/// header value.
pub open spec fn next_page_query(link: Seq<char>) -> Option<Seq<char>> {
    link_query(link, "next"@, "page"@)
}

pub open spec fn is_digit(c: char) -> bool {
    48 <= (c as u32) && (c as u32) <= 57
}

pub open spec fn all_digits(s: Seq<char>) -> bool {
    forall|i: int| 0 <= i < s.len() ==> is_digit(#[trigger] s[i])
}

/// The number that a string of decimal digits denotes.
pub open spec fn digits_value(s: Seq<char>) -> nat
    decreases s.len(),
{
    if s.len() == 0 {
        0
    } else {
        digits_value(s.drop_last()) * 10 + ((s.last() as u32) - 48) as nat
    }
}

/// The digits of an unsigned decimal: one leading `+` is allowed.
pub open spec fn unsigned_digits(s: Seq<char>) -> Seq<char> {
    if s.len() > 0 && s[0] == '+' {
        s.drop_first()
    } else {
        s
    }
}

/// A page number as text: a decimal that fits in `u32` and is positive.
pub open spec fn page_number_of(s: Seq<char>) -> Option<u32> {
    let d = unsigned_digits(s);
    if d.len() > 0 && all_digits(d) && 0 < digits_value(d) <= u32::MAX {
        Some(digits_value(d) as u32)
    } else {
        None
    }
}

/// The page that a `link` header value points to as the next one; `None`
/// where the header is absent, unparsable, has no `rel="next"` entry, or that
/// entry has no valid `page` parameter.
pub open spec fn next_cursor(link: Option<Seq<char>>) -> Option<u32> {
    match link {
        None => None,
        Some(l) => match next_page_query(l) {
            None => None,
            Some(q) => page_number_of(q),
        },
    }
}

proof fn lemma_prefix_value_le(s: Seq<char>, k: int)
    requires
        0 <= k <= s.len(),
        all_digits(s),
    ensures
        digits_value(s.subrange(0, k)) <= digits_value(s),
    decreases s.len(),
{
    if k == s.len() {
        assert(s.subrange(0, k) =~= s);
    } else {
        let t = s.drop_last();
        assert(all_digits(t)) by {
            assert forall|i: int| 0 <= i < t.len() implies is_digit(#[trigger] t[i]) by {
                assert(t[i] == s[i]);
            }
        }
        lemma_prefix_value_le(t, k);
        assert(t.subrange(0, k) =~= s.subrange(0, k));
    }
}

/// Parses the text of a `page` query parameter as a positive page number.
pub fn page_number(q: &str) -> (r: Option<u32>)
    ensures
        r == page_number_of(q@),
{
    let n = q.unicode_len();
    let mut start: usize = 0;
    if n > 0 && q.get_char(0) == '+' {
        start = 1;
    }
    let ghost d = unsigned_digits(q@);
    assert(d =~= q@.subrange(start as int, n as int));
    if start == n {
        return None;
    }
    let mut i: usize = start;
    let mut acc: u64 = 0;
    while i < n
        invariant
            start <= i <= n,
            n == q@.len(),
            d == q@.subrange(start as int, n as int),
            d == unsigned_digits(q@),
            all_digits(d.subrange(0, i - start)),
            acc == digits_value(d.subrange(0, i - start)),
            acc <= u32::MAX,
        decreases n - i,
    {
        let c = q.get_char(i);
        let v = c as u32;
        if v < 48 || v > 57 {
            assert(d[i - start] == c);
            assert(!is_digit(d[i - start]));
            assert(!all_digits(d));
            assert(page_number_of(q@) is None);
            return None;
        }
        let ghost prev = d.subrange(0, i - start);
        let ghost next = d.subrange(0, i + 1 - start);
        assert(next.drop_last() =~= prev);
        assert(next.last() == c);
        acc = acc * 10 + (v - 48) as u64;
        assert(acc == digits_value(next));
        i = i + 1;
        assert(all_digits(next)) by {
            assert forall|j: int| 0 <= j < next.len() implies is_digit(#[trigger] next[j]) by {
                if j < prev.len() {
                    assert(next[j] == prev[j]);
                }
            }
        }
        if acc > 4294967295 {
            proof {
                if all_digits(d) {
                    lemma_prefix_value_le(d, (i - start) as int);
                    assert(digits_value(d) > u32::MAX);
                }
                assert(page_number_of(q@) is None);
            }
            return None;
        }
    }
    assert(d.subrange(0, n - start) =~= d);
    if acc == 0 {
        return None;
    }
    Some(acc as u32)
}

/// The next page number named by the value of a response's `link` header.
pub fn find_next_page(link: Option<&str>) -> (r: Option<u32>)
    ensures
        match link {
            Some(l) => r == next_cursor(Some(l@)),
            None => r is None,
        },
{
    proof {
        reveal_strlit("next");
        reveal_strlit("page");
    }
    match link {
        None => None,
        Some(l) => match link_query_value(l, "next", "page") {
            None => None,
            Some(q) => page_number(q.as_str()),
        },
    }
}

/// The character of a decimal digit.
pub open spec fn digit_char(d: nat) -> char {
    if d == 0 { '0' } else if d == 1 { '1' } else if d == 2 { '2' } else if d == 3 { '3' }
    else if d == 4 { '4' } else if d == 5 { '5' } else if d == 6 { '6' } else if d == 7 { '7' }
    else if d == 8 { '8' } else { '9' }
}

/// The decimal text of a number, without leading zeros.
pub open spec fn decimal(n: nat) -> Seq<char>
    decreases n,
{
    if n < 10 {
        seq![digit_char(n)]
    } else {
        decimal(n / 10).push(digit_char(n % 10))
    }
}

/// The request path of one page of an organization's repository listing.
pub open spec fn repos_path(org: Seq<char>, page: nat) -> Seq<char> {
    "/orgs/"@ + org + "/repos?per_page=25&page="@ + decimal(page)
}

fn digit_text(d: u32) -> (r: &'static str)
    requires
        d < 10,
    ensures
        r@ == seq![digit_char(d as nat)],
{
    proof {
        reveal_strlit("0");
        reveal_strlit("1");
        reveal_strlit("2");
        reveal_strlit("3");
        reveal_strlit("4");
        reveal_strlit("5");
        reveal_strlit("6");
        reveal_strlit("7");
        reveal_strlit("8");
        reveal_strlit("9");
    }
    match d {
        0 => "0",
        1 => "1",
        2 => "2",
        3 => "3",
        4 => "4",
        5 => "5",
        6 => "6",
        7 => "7",
        8 => "8",
        _ => "9",
    }
}

fn append_decimal(out: &mut String, n: u32)
    ensures
        final(out)@ == old(out)@ + decimal(n as nat),
    decreases n,
{
    if n >= 10 {
        append_decimal(out, n / 10);
    }
    out.append(digit_text(n % 10));
    assert(out@ =~= old(out)@ + decimal(n as nat));
}

/// The path, below the API's base URL, at which page `page` of the
/// repositories of `org` is requested, 25 to a page.
pub fn page_path(org: &str, page: u32) -> (r: String)
    ensures
        r@ == repos_path(org@, page as nat),
{
    let mut r = String::new();
    r.append("/orgs/");
    r.append(org);
    r.append("/repos?per_page=25&page=");
    append_decimal(&mut r, page);
    assert(r@ =~= repos_path(org@, page as nat));
    r
}

} // verus!
