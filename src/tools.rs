//! Small tools that the servers expose: recording a purchase, adding ten,
//! and choosing which source files to rename into markdown notes.
use crate::splitter::string_views;
use crate::text::same_text;
use vstd::prelude::*;

verus! {

/// The decimal digit for `d`.
pub open spec fn digit_char(d: nat) -> char {
    if d == 0 {
        '0'
    } else if d == 1 {
        '1'
    } else if d == 2 {
        '2'
    } else if d == 3 {
        '3'
    } else if d == 4 {
        '4'
    } else if d == 5 {
        '5'
    } else if d == 6 {
        '6'
    } else if d == 7 {
        '7'
    } else if d == 8 {
        '8'
    } else {
        '9'
    }
}

/// The decimal digits of `n`, most significant first, without leading zeros.
pub open spec fn digits(n: nat) -> Seq<char>
    decreases n,
{
    if n < 10 {
        seq![digit_char(n)]
    } else {
        digits(n / 10).push(digit_char(n % 10))
    }
}

/// `n` written in decimal, with a minus sign when negative.
pub open spec fn decimal(n: int) -> Seq<char> {
    if n < 0 {
        seq!['-'] + digits((-n) as nat)
    } else {
        digits(n as nat)
    }
}

fn digit_str(d: u64) -> (r: &'static str)
    requires
        d < 10,
    ensures
        r@ == seq![digit_char(d as nat)],
{
    proof {
        reveal_strlit("0");
        reveal_strlit("1");
        reveal_strlit("2");
        reveal_strlit("3");
        reveal_strlit("4");
        reveal_strlit("5");
        reveal_strlit("6");
        reveal_strlit("7");
        reveal_strlit("8");
        reveal_strlit("9");
    }
    if d == 0 {
        "0"
    } else if d == 1 {
        "1"
    } else if d == 2 {
        "2"
    } else if d == 3 {
        "3"
    } else if d == 4 {
        "4"
    } else if d == 5 {
        "5"
    } else if d == 6 {
        "6"
    } else if d == 7 {
        "7"
    } else if d == 8 {
        "8"
    } else {
        assert(d == 9);
        "9"
    }
}

fn push_digits(out: &mut String, m: u64)
    ensures
        final(out)@ == old(out)@ + digits(m as nat),
    decreases m,
{
    if m >= 10 {
        push_digits(out, m / 10);
    }
    let d = digit_str(m % 10);
    out.append(d);
    proof {
        if m >= 10 {
            assert(final(out)@ =~= old(out)@ + digits(m as nat));
        } else {
            assert(final(out)@ =~= old(out)@ + digits(m as nat));
        }
    }
}

/// `n` written in decimal.
pub fn decimal_string(n: i32) -> (r: String)
    ensures
        r@ == decimal(n as int),
{
    let mut out = String::new();
    let wide = n as i64;
    if wide < 0 {
        out.append("-");
        proof {
            reveal_strlit("-");
        }
        push_digits(&mut out, (-wide) as u64);
    } else {
        push_digits(&mut out, wide as u64);
    }
    assert(out@ =~= decimal(n as int));
    out
}

/// The confirmation text for buying `product_name` at `price` yen.
pub open spec fn purchase_text(product_name: Seq<char>, price: int) -> Seq<char> {
    "「"@ + product_name + "」を"@ + decimal(price) + "円で購入しました。"@
}

/// The confirmation text for buying `product_name` at `price` yen.
pub fn purchase(product_name: String, price: i32) -> (r: String)
    ensures
        r@ == purchase_text(product_name@, price as int),
{
    let mut out = String::from_str("「");
    out.append(product_name.as_str());
    out.append("」を");
    let amount = decimal_string(price);
    out.append(amount.as_str());
    out.append("円で購入しました。");
    out
}

/// `value` plus ten; the sum must fit in an `i32`.
pub fn add_ten(value: i32) -> (r: i32)
    requires
        value <= i32::MAX - 10,
    ensures
        r == value + 10,
{
    value + 10
}

/// The reply of the add-ten tool for `value`.
pub open spec fn add_ten_text(value: int) -> Seq<char> {
    "入力値: "@ + decimal(value) + ", 結果: "@ + decimal(value + 10)
}

/// The reply of the add-ten tool for `value`; the sum must fit in an `i32`.
pub fn add_ten_reply(value: i32) -> (r: String)
    requires
        value <= i32::MAX - 10,
    ensures
        r@ == add_ten_text(value as int),
{
    let mut out = String::from_str("入力値: ");
    let input = decimal_string(value);
    out.append(input.as_str());
    out.append(", 結果: ");
    let result = decimal_string(add_ten(value));
    out.append(result.as_str());
    out
}

/// The file extensions of source files that are renamed into markdown notes.
pub open spec fn source_extensions() -> Seq<Seq<char>> {
    seq![
        ".js"@,
        ".jsx"@,
        ".ts"@,
        ".tsx"@,
        ".json"@,
        ".css"@,
        ".htm"@,
        ".html"@,
        ".vue"@,
        ".svelte"@,
        ".py"@,
        ".go"@,
        ".rs"@,
        ".php"@,
    ]
}

/// The file extensions of source files that are renamed into markdown notes,
/// each with its leading dot.
pub fn get_ext_items() -> (r: Vec<String>)
    ensures
        string_views(r@) == source_extensions(),
{
    let mut items: Vec<String> = Vec::new();
    items.push(String::from_str(".js"));
    items.push(String::from_str(".jsx"));
    items.push(String::from_str(".ts"));
    items.push(String::from_str(".tsx"));
    items.push(String::from_str(".json"));
    items.push(String::from_str(".css"));
    items.push(String::from_str(".htm"));
    items.push(String::from_str(".html"));
    items.push(String::from_str(".vue"));
    items.push(String::from_str(".svelte"));
    items.push(String::from_str(".py"));
    items.push(String::from_str(".go"));
    items.push(String::from_str(".rs"));
    items.push(String::from_str(".php"));
    assert(string_views(items@) =~= source_extensions());
    items
}

/// The new path of a file at `path` with extension `ext` (without its dot):
/// the path with `.md` appended when the extension is not `md` and is one of
/// the source extensions, none otherwise.
pub fn markdown_target(path: &str, ext: &str) -> (r: Option<String>)
    ensures
        r is Some <==> (ext@ != "md"@ && source_extensions().contains("."@ + ext@)),
        r matches Some(p) ==> p@ == path@ + ".md"@,
{
    if same_text(ext, "md") {
        return None;
    }
    let items = get_ext_items();
    let mut ext_dot = String::from_str(".");
    ext_dot.append(ext);
    let mut i: usize = 0;
    while i < items.len()
        invariant
            i <= items@.len(),
            string_views(items@) == source_extensions(),
            ext_dot@ == "."@ + ext@,
            ext@ != "md"@,
            forall|k: int| 0 <= k < i ==> source_extensions()[k] != ext_dot@,
        decreases items@.len() - i,
    {
        assert(string_views(items@)[i as int] == items@[i as int]@);
        if same_text(items[i].as_str(), ext_dot.as_str()) {
            let mut target = String::from_str(path);
            target.append(".md");
            assert(source_extensions()[i as int] == ext_dot@);
            assert(source_extensions().contains(ext_dot@));
            return Some(target);
        }
        i = i + 1;
    }
    None
}

} // verus!
