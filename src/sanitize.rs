//! Rewriting of `description` and `example` texts into a form that
//! documentation tools do not try to run: labelled code fences and escaped
//! placeholders.
use vstd::prelude::*;
use crate::doc::{
    well_formed,
    entries_view, items_view, key_position, lemma_mapping_view, lemma_sequence_view, key_index,
    Doc, Node,
};
use crate::lines::{
    docr_command, join_lines, label_command_fence_lines, label_command_fences, wrap_command_lines,
    wrap_commands,
};
use crate::text::{
    chars_of, contains_text, find_char, has_prefix, matches_at, occurs_in, position_of,
    push_all, replace_all, replace_text, split_on, sub_chars, text_of,
};

verus! {

/// The characters that `char::is_whitespace` accepts, other than the newline.
pub open spec fn is_white(c: char) -> bool {
    let u = c as u32;
    u == 0x09 || u == 0x0B || u == 0x0C || u == 0x0D || u == 0x20 || u == 0x85 || u == 0xA0
        || u == 0x1680 || (0x2000 <= u && u <= 0x200A) || u == 0x2028 || u == 0x2029 || u
        == 0x202F || u == 0x205F || u == 0x3000
}

pub open spec fn all_white(s: Seq<char>) -> bool {
    forall|i: int| 0 <= i < s.len() ==> is_white(#[trigger] s[i])
}

/// Every fence that opens a code block without a language label (three
/// backticks with only blanks after them on their line) labelled `text`.
/// Each run of three backticks opens or closes a block in turn; `inside`
/// says whether one is open. Closing fences are left as they are.
pub open spec fn label_fences_from(s: Seq<char>, inside: bool) -> Seq<char>
    decreases s.len(),
{
    if s.len() < 3 {
        s
    } else if has_prefix(s, "```"@) {
        let rest = s.subrange(3, s.len() as int);
        let nl = find_char(rest, '\n') as int;
        if !inside && nl < rest.len() && all_white(rest.subrange(0, nl)) {
            "```text"@ + label_fences_from(rest.subrange(nl, rest.len() as int), true)
        } else {
            "```"@ + label_fences_from(rest, !inside)
        }
    } else {
        seq![s[0]] + label_fences_from(s.subrange(1, s.len() as int), inside)
    }
}

pub open spec fn label_fences(s: Seq<char>) -> Seq<char> {
    label_fences_from(s, false)
}

/// The literal rewrites of descriptions that escape markup: links put in
/// angle brackets (a link already in brackets is first taken out of them, so
/// that it is bracketed once), and brackets that read as markup escaped.
pub open spec fn markup_rewrites() -> Seq<(Seq<char>, Seq<char>)> {
    seq![
        ("<https://github.com/google/re2/wiki/Syntax>"@, "https://github.com/google/re2/wiki/Syntax"@),
        ("https://github.com/google/re2/wiki/Syntax"@, "<https://github.com/google/re2/wiki/Syntax>"@),
        (
            "<https://www.digitalocean.com/legal/terms-of-service-agreement/>"@,
            "https://www.digitalocean.com/legal/terms-of-service-agreement/"@,
        ),
        (
            "https://www.digitalocean.com/legal/terms-of-service-agreement/"@,
            "<https://www.digitalocean.com/legal/terms-of-service-agreement/>"@,
        ),
        ("[V2]"@, "\\[V2\\]"@),
        ("<host>"@, "\\<host\\>"@),
        ("<port>"@, "\\<port\\>"@),
        ("<resource>"@, "\\<resource\\>"@),
    ]
}

/// `n` spaces.
pub open spec fn spaces(n: nat) -> Seq<char> {
    Seq::new(n, |i: int| ' ')
}

/// A bare fence opening a block whose first line starts with `tail`, and
/// the same fence labelled `text`.
pub open spec fn fence_rewrite(tail: Seq<char>) -> (Seq<char>, Seq<char>) {
    ("```\n"@ + tail, "```text\n"@ + tail)
}

/// The rewrites that label fences opening command-line and HTTP-transcript
/// blocks.
pub open spec fn command_fence_rewrites() -> Seq<(Seq<char>, Seq<char>)> {
    seq![
        fence_rewrite("DD_KEY <%pri%>"@),
        fence_rewrite("curl "@),
        fence_rewrite("     curl "@),
        fence_rewrite("      curl "@),
        fence_rewrite("    curl "@),
    ] + Seq::new(9, |n: int| fence_rewrite(spaces(n as nat) + "kubectl "@)) + seq![
        fence_rewrite("HTTP/"@),
        fence_rewrite("export "@),
        fence_rewrite("    . . ."@),
        fence_rewrite("429 Too Many Requests"@),
        fence_rewrite("    429 Too Many Requests"@),
    ]
}

/// The literal rewrites of descriptions, in the order they are applied.
pub open spec fn description_rewrites() -> Seq<(Seq<char>, Seq<char>)> {
    markup_rewrites() + command_fence_rewrites()
}

/// The rewrites that label fences opening the secret-creating command, for
/// indents of `n` to eight spaces.
pub open spec fn docr_rewrites_from(n: nat) -> Seq<(Seq<char>, Seq<char>)>
    decreases 9 - n,
{
    if n >= 9 {
        Seq::empty()
    } else {
        seq![
            fence_rewrite(spaces(n) + docr_command()),
            fence_rewrite(spaces(n) + "kubectl create secret"@),
        ] + docr_rewrites_from(n + 1)
    }
}

/// The rewrites applied in order.
pub open spec fn rewrite_each(s: Seq<char>, rewrites: Seq<(Seq<char>, Seq<char>)>) -> Seq<char>
    decreases rewrites.len(),
{
    if rewrites.len() == 0 {
        s
    } else {
        rewrite_each(replace_all(s, rewrites[0].0, rewrites[0].1), rewrites.drop_first())
    }
}

/// One round of fixes to a description: its markup escaped and the fences
/// of its code blocks labelled, in these steps: the literal rewrites; the labelling of bare
/// fences; where it mentions `kubectl`, the fences that open a `kubectl`
/// line; where it shows the secret-creating command, the fences before that
/// command and fences put round its indented form; then the fences before a
/// forbidden-response transcript and before an authorised `curl`.
pub open spec fn description_fixes(s: Seq<char>) -> Seq<char> {
    let s1 = label_fences(rewrite_each(s, description_rewrites()));
    let s2 = if occurs_in(s1, "kubectl"@) {
        join_lines(label_command_fences(split_on(s1, '\n')))
    } else {
        s1
    };
    let s3 = if occurs_in(s2, docr_command()) {
        rewrite_each(s2, docr_rewrites_from(2))
    } else {
        s2
    };
    let s4 = if occurs_in(s3, docr_command()) {
        join_lines(wrap_commands(split_on(s3, '\n')))
    } else {
        s3
    };
    let s5 = if occurs_in(s4, "HTTP/1.1 403 Forbidden"@) {
        replace_all(s4, "```\nHTTP/1.1 403 Forbidden"@, "```text\nHTTP/1.1 403 Forbidden"@)
    } else {
        s4
    };
    if occurs_in(s5, "curl -H \"Authorization:"@) {
        replace_all(s5, "```\n    curl -H \"Authorization:"@, "```text\n    curl -H \"Authorization:"@)
    } else {
        s5
    }
}

/// One round of fixes to an example that holds a log template: its template
/// delimiters escaped once, delimiters already escaped are first taken back.
pub open spec fn example_fixes(s: Seq<char>) -> Seq<char> {
    if occurs_in(s, "<%pri%>"@) || occurs_in(s, "DD_KEY"@) {
        let plain = replace_all(replace_all(s, "\\<%"@, "<%"@), "%\\>"@, "%>"@);
        replace_all(replace_all(plain, "<%"@, "\\<%"@), "%>"@, "%\\>"@)
    } else {
        s
    }
}

/// The text that repeated fixing settles on: `fix` applied once, or twice,
/// where its result is one that `fix` leaves as it is; a text on which two
/// rounds do not settle is left as written. So the result is always either
/// a text that fixing leaves unchanged or the text itself.
pub open spec fn settled(s: Seq<char>, t1: Seq<char>, t1_again: Seq<char>, t2_again: Seq<char>) -> Seq<char> {
    if t1_again == t1 {
        t1
    } else if t2_again == t1_again {
        t1_again
    } else {
        s
    }
}

/// A description with its markup escaped and its code fences labelled, as
/// far as the fixes settle.
#[verifier::opaque]
pub open spec fn fixed_description(s: Seq<char>) -> Seq<char> {
    let t1 = description_fixes(s);
    let t2 = description_fixes(t1);
    settled(s, t1, t2, description_fixes(t2))
}

/// An example with its log-template delimiters escaped, as far as the fixes
/// settle.
#[verifier::opaque]
pub open spec fn fixed_example(s: Seq<char>) -> Seq<char> {
    let t1 = example_fixes(s);
    let t2 = example_fixes(t1);
    settled(s, t1, t2, example_fixes(t2))
}

/// Fixing a description twice is fixing it once.
pub proof fn lemma_fixed_description_idempotent(s: Seq<char>)
    ensures
        fixed_description(fixed_description(s)) == fixed_description(s),
{
    reveal(fixed_description);
}

/// Fixing an example twice is fixing it once.
pub proof fn lemma_fixed_example_idempotent(s: Seq<char>)
    ensures
        fixed_example(fixed_example(s)) == fixed_example(s),
{
    reveal(fixed_example);
}

/// The value of the entry at position `i` of a sanitised mapping.
pub open spec fn sanitized_value(es: Seq<(Seq<char>, Doc)>, i: int, v: Doc) -> Doc {
    if i == key_index(es, "description"@) && v is Str {
        Doc::Str(fixed_description(v->Str_0))
    } else if i == key_index(es, "example"@) && v is Str {
        Doc::Str(fixed_example(v->Str_0))
    } else {
        v
    }
}

/// `d` with each mapping's first `description` and `example` strings fixed.
pub open spec fn sanitized(d: Doc) -> Doc
    decreases d,
{
    match d {
        Doc::Mapping(es) => Doc::Mapping(
            Seq::new(
                es.len(),
                |i: int|
                    (
                        es[i].0,
                        if 0 <= i < es.len() {
                            if es[i].1 is Str {
                                sanitized_value(es, i, es[i].1)
                            } else {
                                sanitized(es[i].1)
                            }
                        } else {
                            Doc::Null
                        },
                    ),
            ),
        ),
        Doc::Sequence(items) => Doc::Sequence(
            Seq::new(
                items.len(),
                |i: int|
                    if 0 <= i < items.len() {
                        sanitized(items[i])
                    } else {
                        Doc::Null
                    },
            ),
        ),
        _ => d,
    }
}

fn is_white_char(c: char) -> (r: bool)
    ensures
        r == is_white(c),
{
    let u = c as u32;
    u == 0x09 || u == 0x0B || u == 0x0C || u == 0x0D || u == 0x20 || u == 0x85 || u == 0xA0
        || u == 0x1680 || (0x2000 <= u && u <= 0x200A) || u == 0x2028 || u == 0x2029 || u
        == 0x202F || u == 0x205F || u == 0x3000
}

pub fn label_bare_fences(s: &[char]) -> (r: Vec<char>)
    ensures
        r@ == label_fences(s@),
{
    let fence = chars_of("```");
    let labelled = chars_of("```text");
    proof {
        reveal_strlit("```");
    }
    let mut out: Vec<char> = Vec::new();
    let mut i: usize = 0;
    let mut inside = false;
    assert(s@.subrange(0, s.len() as int) == s@);
    assert(out@ + label_fences(s@) == label_fences(s@));
    while i < s.len()
        invariant
            i <= s.len(),
            fence@ == "```"@,
            fence@.len() == 3,
            labelled@ == "```text"@,
            out@ + label_fences_from(s@.subrange(i as int, s.len() as int), inside) == label_fences(s@),
        decreases s.len() - i,
    {
        let ghost t = s@.subrange(i as int, s.len() as int);
        let ghost before = out@;
        if s.len() - i < 3 {
            push_all(&mut out, &sub_chars(s, i, s.len()));
            assert(out@ + label_fences_from(s@.subrange(s.len() as int, s.len() as int), inside) =~= before
                + label_fences_from(t, inside));
            i = s.len();
        } else if matches_at(s, i, &fence) {
            assert(has_prefix(t, "```"@)) by {
                assert(t.subrange(0, 3) =~= s@.subrange(i as int, i + 3));
            }
            let rest = sub_chars(s, i + 3, s.len());
            assert(rest@ =~= t.subrange(3, t.len() as int));
            let nl = position_of(&rest, '\n');
            let mut white = true;
            let mut k: usize = 0;
            while k < nl
                invariant
                    k <= nl <= rest.len(),
                    white == (forall|j: int| 0 <= j < k ==> is_white(#[trigger] rest@[j])),
                decreases nl - k,
            {
                white = white && is_white_char(rest[k]);
                k += 1;
            }
            proof {
                if white {
                    assert forall|j: int| 0 <= j < nl implies is_white(
                        #[trigger] rest@.subrange(0, nl as int)[j],
                    ) by {
                        assert(is_white(rest@[j]));
                    }
                } else {
                    let j = choose|j: int| 0 <= j < nl && !is_white(#[trigger] rest@[j]);
                    assert(!is_white(rest@.subrange(0, nl as int)[j]));
                }
            }
            if !inside && nl < rest.len() && white {
                push_all(&mut out, &labelled);
                assert(s@.subrange((i + 3 + nl) as int, s.len() as int) =~= rest@.subrange(
                    nl as int,
                    rest.len() as int,
                ));
                assert(before + ("```text"@ + label_fences_from(rest@.subrange(nl as int, rest.len() as int), true))
                    =~= out@ + label_fences_from(rest@.subrange(nl as int, rest.len() as int), true));
                i = i + 3 + nl;
                inside = true;
            } else {
                push_all(&mut out, &fence);
                assert(s@.subrange(i + 3, s.len() as int) =~= rest@);
                assert(before + ("```"@ + label_fences_from(rest@, !inside)) =~= out@ + label_fences_from(rest@, !inside));
                i = i + 3;
                inside = !inside;
            }
        } else {
            assert(!has_prefix(t, "```"@)) by {
                assert(t.subrange(0, 3) =~= s@.subrange(i as int, i + 3));
            }
            out.push(s[i]);
            assert(s@.subrange(i + 1, s.len() as int) =~= t.subrange(1, t.len() as int));
            assert(before + (seq![t[0]] + label_fences_from(t.subrange(1, t.len() as int), inside)) =~= out@
                + label_fences_from(t.subrange(1, t.len() as int), inside));
            i += 1;
        }
    }
    assert(s@.subrange(i as int, s.len() as int) =~= Seq::<char>::empty());
    assert(out@ + Seq::<char>::empty() =~= out@);
    out
}

/// The views of a list of rewrites.
pub open spec fn pairs_view(v: Seq<(Vec<char>, Vec<char>)>) -> Seq<(Seq<char>, Seq<char>)> {
    Seq::new(v.len(), |i: int| (v[i].0@, v[i].1@))
}

fn push_pair(v: &mut Vec<(Vec<char>, Vec<char>)>, a: Vec<char>, b: Vec<char>)
    ensures
        pairs_view(final(v)@) == pairs_view(old(v)@).push((a@, b@)),
{
    let ghost p = (a@, b@);
    v.push((a, b));
    assert(pairs_view(v@) =~= pairs_view(old(v)@).push(p));
}

fn spaces_chars(n: usize) -> (r: Vec<char>)
    ensures
        r@ == spaces(n as nat),
{
    let mut r: Vec<char> = Vec::new();
    let mut i: usize = 0;
    while i < n
        invariant
            i <= n,
            r@ == spaces(i as nat),
        decreases n - i,
    {
        r.push(' ');
        assert(r@ =~= spaces((i + 1) as nat));
        i += 1;
    }
    r
}

fn concat_chars(a: &[char], b: &[char]) -> (r: Vec<char>)
    ensures
        r@ == a@ + b@,
{
    let mut r = sub_chars(a, 0, a.len());
    push_all(&mut r, b);
    r
}

fn push_fence_rewrite(v: &mut Vec<(Vec<char>, Vec<char>)>, tail: &[char])
    ensures
        pairs_view(final(v)@) == pairs_view(old(v)@).push(fence_rewrite(tail@)),
{
    let a = concat_chars(&chars_of("```\n"), tail);
    let b = concat_chars(&chars_of("```text\n"), tail);
    push_pair(v, a, b);
}

fn rewrite_pairs() -> (r: Vec<(Vec<char>, Vec<char>)>)
    ensures
        pairs_view(r@) == description_rewrites(),
{
    let mut r: Vec<(Vec<char>, Vec<char>)> = Vec::new();
    push_pair(&mut r, chars_of("<https://github.com/google/re2/wiki/Syntax>"), chars_of("https://github.com/google/re2/wiki/Syntax"));
    push_pair(&mut r, chars_of("https://github.com/google/re2/wiki/Syntax"), chars_of("<https://github.com/google/re2/wiki/Syntax>"));
    push_pair(
        &mut r,
        chars_of("<https://www.digitalocean.com/legal/terms-of-service-agreement/>"),
        chars_of("https://www.digitalocean.com/legal/terms-of-service-agreement/"),
    );
    push_pair(
        &mut r,
        chars_of("https://www.digitalocean.com/legal/terms-of-service-agreement/"),
        chars_of("<https://www.digitalocean.com/legal/terms-of-service-agreement/>"),
    );
    push_pair(&mut r, chars_of("[V2]"), chars_of("\\[V2\\]"));
    push_pair(&mut r, chars_of("<host>"), chars_of("\\<host\\>"));
    push_pair(&mut r, chars_of("<port>"), chars_of("\\<port\\>"));
    push_pair(&mut r, chars_of("<resource>"), chars_of("\\<resource\\>"));
    assert(pairs_view(r@) =~= markup_rewrites());
    push_fence_rewrite(&mut r, &chars_of("DD_KEY <%pri%>"));
    push_fence_rewrite(&mut r, &chars_of("curl "));
    push_fence_rewrite(&mut r, &chars_of("     curl "));
    push_fence_rewrite(&mut r, &chars_of("      curl "));
    push_fence_rewrite(&mut r, &chars_of("    curl "));
    let ghost head = pairs_view(r@);
    let kubectl = chars_of("kubectl ");
    let mut n: usize = 0;
    while n < 9
        invariant
            n <= 9,
            kubectl@ == "kubectl "@,
            pairs_view(r@) == head + Seq::new(n as nat, |k: int| fence_rewrite(spaces(k as nat) + "kubectl "@)),
        decreases 9 - n,
    {
        let ghost before = pairs_view(r@);
        push_fence_rewrite(&mut r, &concat_chars(&spaces_chars(n), &kubectl));
        assert(pairs_view(r@) =~= head + Seq::new((n + 1) as nat, |k: int| fence_rewrite(spaces(k as nat) + "kubectl "@)));
        n += 1;
    }
    push_fence_rewrite(&mut r, &chars_of("HTTP/"));
    push_fence_rewrite(&mut r, &chars_of("export "));
    push_fence_rewrite(&mut r, &chars_of("    . . ."));
    push_fence_rewrite(&mut r, &chars_of("429 Too Many Requests"));
    push_fence_rewrite(&mut r, &chars_of("    429 Too Many Requests"));
    assert(pairs_view(r@) =~= description_rewrites());
    r
}

fn docr_pairs() -> (r: Vec<(Vec<char>, Vec<char>)>)
    ensures
        pairs_view(r@) == docr_rewrites_from(2),
{
    let mut r: Vec<(Vec<char>, Vec<char>)> = Vec::new();
    let docr = chars_of("kubectl create secret generic docr");
    let secret = chars_of("kubectl create secret");
    let mut n: usize = 2;
    assert(pairs_view(r@) + docr_rewrites_from(2) =~= docr_rewrites_from(2));
    while n < 9
        invariant
            2 <= n <= 9,
            docr@ == docr_command(),
            secret@ == "kubectl create secret"@,
            pairs_view(r@) + docr_rewrites_from(n as nat) == docr_rewrites_from(2),
        decreases 9 - n,
    {
        let ghost before = pairs_view(r@);
        let sp = spaces_chars(n);
        push_fence_rewrite(&mut r, &concat_chars(&sp, &docr));
        push_fence_rewrite(&mut r, &concat_chars(&sp, &secret));
        assert(before + docr_rewrites_from(n as nat) =~= pairs_view(r@) + docr_rewrites_from((n + 1) as nat));
        n += 1;
    }
    assert(docr_rewrites_from(9) =~= Seq::<(Seq<char>, Seq<char>)>::empty());
    assert(pairs_view(r@) + Seq::<(Seq<char>, Seq<char>)>::empty() =~= pairs_view(r@));
    r
}

fn apply_rewrites(s: &[char], pairs: &Vec<(Vec<char>, Vec<char>)>) -> (r: Vec<char>)
    ensures
        r@ == rewrite_each(s@, pairs_view(pairs@)),
{
    let ghost all = pairs_view(pairs@);
    let mut cur = sub_chars(s, 0, s.len());
    let mut i: usize = 0;
    assert(s@.subrange(0, s.len() as int) == s@);
    assert(all.subrange(0, all.len() as int) == all);
    while i < pairs.len()
        invariant
            i <= pairs.len(),
            all == pairs_view(pairs@),
            rewrite_each(s@, all) == rewrite_each(cur@, all.subrange(i as int, all.len() as int)),
        decreases pairs.len() - i,
    {
        let ghost tail = all.subrange(i as int, all.len() as int);
        assert(tail[0] == all[i as int]);
        assert(tail.drop_first() == all.subrange(i + 1, all.len() as int));
        cur = replace_text(&cur, &pairs[i].0, &pairs[i].1);
        i += 1;
    }
    assert(all.subrange(i as int, all.len() as int) =~= Seq::<(Seq<char>, Seq<char>)>::empty());
    cur
}

/// One round of the description fixes.
fn description_fix_chars(s: &[char]) -> (r: Vec<char>)
    ensures
        r@ == description_fixes(s@),
{
    let s1 = label_bare_fences(&apply_rewrites(s, &rewrite_pairs()));
    let s2 = if contains_text(&s1, &chars_of("kubectl")) {
        label_command_fence_lines(&s1)
    } else {
        s1
    };
    let docr = chars_of("kubectl create secret generic docr");
    let s3 = if contains_text(&s2, &docr) {
        apply_rewrites(&s2, &docr_pairs())
    } else {
        s2
    };
    let s4 = if contains_text(&s3, &docr) {
        wrap_command_lines(&s3)
    } else {
        s3
    };
    let s5 = if contains_text(&s4, &chars_of("HTTP/1.1 403 Forbidden")) {
        replace_text(&s4, &chars_of("```\nHTTP/1.1 403 Forbidden"), &chars_of("```text\nHTTP/1.1 403 Forbidden"))
    } else {
        s4
    };
    let s6 = if contains_text(&s5, &chars_of("curl -H \"Authorization:")) {
        replace_text(
            &s5,
            &chars_of("```\n    curl -H \"Authorization:"),
            &chars_of("```text\n    curl -H \"Authorization:"),
        )
    } else {
        s5
    };
    s6
}

/// Whether two character vectors are equal.
fn same_chars(a: &Vec<char>, b: &Vec<char>) -> (r: bool)
    ensures
        r == (a@ == b@),
{
    if a.len() != b.len() {
        return false;
    }
    let mut i: usize = 0;
    while i < a.len()
        invariant
            i <= a.len() == b.len(),
            forall|k: int| 0 <= k < i ==> a@[k] == b@[k],
        decreases a.len() - i,
    {
        if a[i] != b[i] {
            return false;
        }
        i += 1;
    }
    assert(a@ =~= b@);
    true
}

/// A description with its markup escaped and its code fences labelled.
pub fn fix_description(s: &str) -> (r: String)
    ensures
        r@ == fixed_description(s@),
{
    reveal(fixed_description);
    let cs = chars_of(s);
    let t1 = description_fix_chars(&cs);
    let t2 = description_fix_chars(&t1);
    if same_chars(&t2, &t1) {
        return text_of(&t1);
    }
    let t3 = description_fix_chars(&t2);
    if same_chars(&t3, &t2) {
        text_of(&t2)
    } else {
        s.to_owned()
    }
}

/// One round of the example fixes.
fn example_fix_chars(cs: &[char]) -> (r: Vec<char>)
    ensures
        r@ == example_fixes(cs@),
{
    if contains_text(cs, &chars_of("<%pri%>")) || contains_text(cs, &chars_of("DD_KEY")) {
        let p1 = replace_text(cs, &chars_of("\\<%"), &chars_of("<%"));
        let p2 = replace_text(&p1, &chars_of("%\\>"), &chars_of("%>"));
        let a = replace_text(&p2, &chars_of("<%"), &chars_of("\\<%"));
        replace_text(&a, &chars_of("%>"), &chars_of("%\\>"))
    } else {
        let r = sub_chars(cs, 0, cs.len());
        assert(cs@.subrange(0, cs.len() as int) == cs@);
        r
    }
}

/// An example with its log-template delimiters escaped.
pub fn fix_example(s: &str) -> (r: String)
    ensures
        r@ == fixed_example(s@),
{
    reveal(fixed_example);
    let cs = chars_of(s);
    let t1 = example_fix_chars(&cs);
    let t2 = example_fix_chars(&t1);
    if same_chars(&t2, &t1) {
        return text_of(&t1);
    }
    let t3 = example_fix_chars(&t2);
    if same_chars(&t3, &t2) {
        text_of(&t2)
    } else {
        s.to_owned()
    }
}

/// Fixes the `description` and `example` texts throughout a document.
pub fn sanitize_documentation(node: &Node) -> (r: Node)
    ensures
        r@ == sanitized(node@),
        well_formed(node@) ==> well_formed(r@),
    decreases node,
{
    proof {
        if well_formed(node@) {
            crate::validity::lemma_sanitized_valid(node@);
        }
    }
    match node {
        Node::Mapping(es) => {
            proof {
                lemma_mapping_view(*es);
            }
            let ghost ev = entries_view(es@);
            let di = key_position(es, "description");
            let ei = key_position(es, "example");
            let mut out: Vec<(String, Node)> = Vec::new();
            let mut i: usize = 0;
            proof {
                assert forall|k: int| 0 <= k < es.len() implies decreases_to!(*node => #[trigger] es@[k].1) by {
                    assert(decreases_to!(es => es[k]));
                }
            }
            while i < es.len()
                invariant
                    i <= es.len(),
                    ev == entries_view(es@),
                    di == key_index(ev, "description"@),
                    ei == key_index(ev, "example"@),
                    forall|k: int| 0 <= k < es.len() ==> decreases_to!(*node => #[trigger] es@[k].1),
                    out.len() == i,
                    forall|k: int|
                        0 <= k < i ==> #[trigger] out@[k].0@ == ev[k].0 && out@[k].1@ == (if ev[k].1 is Str {
                            sanitized_value(ev, k, ev[k].1)
                        } else {
                            sanitized(ev[k].1)
                        }),
                decreases es.len() - i,
            {
                assert(ev[i as int] == (es@[i as int].0@, es@[i as int].1@));
                let v = match &es[i].1 {
                    Node::Str(t) => {
                        assert(ev[i as int].1 == Doc::Str(t@));
                        if i == di {
                            Node::Str(fix_description(t.as_str()))
                        } else if i == ei {
                            Node::Str(fix_example(t.as_str()))
                        } else {
                            Node::Str(t.clone())
                        }
                    },
                    other => {
                        assert(!(ev[i as int].1 is Str));
                        sanitize_documentation(other)
                    },
                };
                assert(v@ == (if ev[i as int].1 is Str {
                    sanitized_value(ev, i as int, ev[i as int].1)
                } else {
                    sanitized(ev[i as int].1)
                }));
                let ghost vv = v@;
                let ghost before = out@;
                let key = es[i].0.clone();
                assert(key@ == ev[i as int].0);
                out.push((key, v));
                assert(out@[i as int].1@ == vv);
                assert(out@[i as int].0@ == ev[i as int].0);
                i += 1;
                assert forall|k: int| 0 <= k < i implies #[trigger] out@[k].0@ == ev[k].0 && out@[k].1@ == (
                if ev[k].1 is Str {
                    sanitized_value(ev, k, ev[k].1)
                } else {
                    sanitized(ev[k].1)
                }) by {
                    if k < i - 1 {
                        assert(out@[k] == before[k]);
                        assert(before[k].0@ == ev[k].0);
                    }
                }
            }
            proof {
                lemma_mapping_view(out);
                assert(entries_view(out@) =~= match sanitized(node@) {
                    Doc::Mapping(s) => s,
                    _ => Seq::empty(),
                });
            }
            Node::Mapping(out)
        },
        Node::Sequence(items) => {
            proof {
                lemma_sequence_view(*items);
            }
            let mut out: Vec<Node> = Vec::new();
            let mut i: usize = 0;
            proof {
                assert forall|k: int| 0 <= k < items.len() implies decreases_to!(*node => #[trigger] items@[k]) by {
                    assert(decreases_to!(items => items[k]));
                }
            }
            while i < items.len()
                invariant
                    i <= items.len(),
                    forall|k: int| 0 <= k < items.len() ==> decreases_to!(*node => #[trigger] items@[k]),
                    out.len() == i,
                    forall|k: int| 0 <= k < i ==> #[trigger] out@[k]@ == sanitized(items@[k]@),
                decreases items.len() - i,
            {
                out.push(sanitize_documentation(&items[i]));
                i += 1;
            }
            proof {
                lemma_sequence_view(out);
                assert(items_view(out@) =~= match sanitized(node@) {
                    Doc::Sequence(s) => s,
                    _ => Seq::empty(),
                });
            }
            Node::Sequence(out)
        },
        _ => node.deep_copy(),
    }
}

} // verus!
