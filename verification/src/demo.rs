//! Demo data: a tree of small text files with planned duplicates.

use vstd::prelude::*;
use vstd::utf8::{encode_scalar, encode_utf8, is_ascii_chars};
use crate::paths::{byte_len, byte_len_of, join, join_of};
use crate::text::{chars_of, decimal, decimal_text, slice_of, text_of, views};

verus! {

// ----- contents ------------------------------------------------------------

pub open spec fn heading(template: Seq<char>, seed: nat) -> Seq<char> {
    "=== "@ + template + " ===\n\n"@ + "File ID: "@ + decimal(seed) + "\n"@
        + "Generated for dupscanner demo\n\n"@
}

pub open spec fn padding_text() -> Seq<char> {
    "Lorem ipsum dolor sit amet, consectetur adipiscing elit. "@
}

/// A text with one more line of padding, which ends in a number that tells
/// how long the text has become.
pub open spec fn with_line(content: Seq<char>) -> Seq<char> {
    let longer = content + padding_text();
    longer + "Line "@ + decimal(byte_len_of(longer) / 60) + "\n"@
}

/// How many bytes a text is short of.
pub open spec fn short_of(content: Seq<char>, target: nat) -> nat {
    if byte_len_of(content) < target {
        (target - byte_len_of(content)) as nat
    } else {
        0
    }
}

/// A text padded with lines until it has at least `target` bytes.
pub open spec fn padded(content: Seq<char>, target: nat) -> Seq<char>
    decreases short_of(content, target),
{
    if byte_len_of(content) >= target {
        content
    } else {
        proof {
            lemma_line_is_longer(content);
        }
        padded(with_line(content), target)
    }
}

/// Can the text be cut after exactly `size` bytes, between two characters?
pub open spec fn cuts_at(s: Seq<char>, size: nat) -> bool {
    exists|k: int| 0 <= k <= s.len() && byte_len_of(#[trigger] s.take(k)) == size
}

pub proof fn lemma_concat_len(a: Seq<char>, b: Seq<char>)
    ensures
        byte_len_of(a + b) == byte_len_of(a) + byte_len_of(b),
    decreases a.len(),
{
    if a.len() == 0 {
        assert(a + b =~= b);
    } else {
        lemma_concat_len(a.drop_first(), b);
        assert((a + b).drop_first() =~= a.drop_first() + b);
        assert((a + b)[0] == a[0]);
    }
}

pub proof fn lemma_line_is_longer(content: Seq<char>)
    ensures
        byte_len_of(with_line(content)) > byte_len_of(content),
{
    let longer = content + padding_text();
    let numbered = longer + "Line "@ + decimal(byte_len_of(longer) / 60);
    lemma_concat_len(content, padding_text());
    lemma_concat_len(longer + "Line "@, decimal(byte_len_of(longer) / 60));
    lemma_concat_len(longer, "Line "@);
    lemma_concat_len(numbered, "\n"@);
    reveal_strlit("\n");
    vstd::utf8::is_ascii_chars_encode_utf8("\n"@);
}

proof fn lemma_decimal_is_ascii(n: nat)
    ensures
        is_ascii_chars(decimal(n)),
    decreases n,
{
    if n >= 10 {
        lemma_decimal_is_ascii(n / 10);
    }
}

proof fn lemma_both_ascii(a: Seq<char>, b: Seq<char>)
    requires
        is_ascii_chars(a),
        is_ascii_chars(b),
    ensures
        is_ascii_chars(a + b),
{
}

proof fn lemma_literals_are_ascii()
    ensures
        is_ascii_chars("=== "@),
        is_ascii_chars(" ===\n\n"@),
        is_ascii_chars("File ID: "@),
        is_ascii_chars("\n"@),
        is_ascii_chars("Generated for dupscanner demo\n\n"@),
        is_ascii_chars("Line "@),
        is_ascii_chars(padding_text()),
{
    reveal_strlit("=== ");
    reveal_strlit(" ===\n\n");
    reveal_strlit("File ID: ");
    reveal_strlit("\n");
    reveal_strlit("Generated for dupscanner demo\n\n");
    reveal_strlit("Line ");
    reveal_strlit("Lorem ipsum dolor sit amet, consectetur adipiscing elit. ");
}

proof fn lemma_padded(content: Seq<char>, target: nat)
    ensures
        byte_len_of(padded(content, target)) >= target,
        is_ascii_chars(content) ==> is_ascii_chars(padded(content, target)),
    decreases short_of(content, target),
{
    if byte_len_of(content) < target {
        lemma_line_is_longer(content);
        lemma_padded(with_line(content), target);
        if is_ascii_chars(content) {
            lemma_literals_are_ascii();
            let longer = content + padding_text();
            let n = decimal(byte_len_of(longer) / 60);
            lemma_decimal_is_ascii(byte_len_of(longer) / 60);
            lemma_both_ascii(content, padding_text());
            lemma_both_ascii(longer, "Line "@);
            lemma_both_ascii(longer + "Line "@, n);
            lemma_both_ascii(longer + "Line "@ + n, "\n"@);
        }
    }
}

/// The content made from a template of ASCII characters can be cut to any
/// size.
pub proof fn ascii_contents_cut_anywhere(template: Seq<char>, target: nat, seed: nat)
    requires
        is_ascii_chars(template),
    ensures
        cuts_at(padded(heading(template, seed), target), target),
{
    lemma_literals_are_ascii();
    lemma_decimal_is_ascii(seed);
    let h = heading(template, seed);
    assert(is_ascii_chars(h));
    lemma_padded(h, target);
    let s = padded(h, target);
    vstd::utf8::is_ascii_chars_encode_utf8(s);
    let cut = s.take(target as int);
    vstd::utf8::is_ascii_chars_encode_utf8(cut);
}

fn char_width(c: char) -> (r: usize)
    ensures
        r == encode_scalar(c as u32).len(),
        1 <= r <= 4,
{
    let n = c as u32;
    if n <= 0x7f {
        1
    } else if n <= 0x7ff {
        2
    } else if n <= 0xffff {
        3
    } else {
        4
    }
}

proof fn lemma_take_grows(s: Seq<char>, i: int, k: int)
    requires
        0 <= i <= k <= s.len(),
    ensures
        byte_len_of(s.take(k)) >= byte_len_of(s.take(i)) + (k - i),
    decreases k - i,
{
    if i < k {
        lemma_take_grows(s, i, k - 1);
        lemma_one_more(s, k - 1);
    }
}

proof fn lemma_one_more(s: Seq<char>, i: int)
    requires
        0 <= i < s.len(),
    ensures
        byte_len_of(s.take(i + 1)) == byte_len_of(s.take(i)) + encode_scalar(s[i] as u32).len(),
        encode_scalar(s[i] as u32).len() >= 1,
{
    let one = seq![s[i]];
    assert(s.take(i + 1) =~= s.take(i) + one);
    lemma_concat_len(s.take(i), one);
    assert(one.drop_first() =~= seq![]);
    assert(encode_utf8(seq![]) =~= seq![]);
    assert(encode_utf8(one) =~= encode_scalar(s[i] as u32));
}

/// A text of `target_size` bytes that begins with the template and the seed,
/// where the padded text can be cut there.
pub fn generate_content(template: &str, target_size: usize, seed: usize) -> (r: String)
    requires
        cuts_at(padded(heading(template@, seed as nat), target_size as nat), target_size as nat),
    ensures
        byte_len_of(r@) == target_size,
        r@ == padded(heading(template@, seed as nat), target_size as nat).take(r@.len() as int),
        r@.len() <= padded(heading(template@, seed as nat), target_size as nat).len(),
{
    let mut content = "=== ".to_owned();
    content.append(template);
    content.append(" ===\n\n");
    content.append("File ID: ");
    content.append(decimal_text(seed as u64).as_str());
    content.append("\n");
    content.append("Generated for dupscanner demo\n\n");
    let ghost whole = padded(heading(template@, seed as nat), target_size as nat);
    while byte_len(content.as_str()) < target_size
        invariant
            padded(content@, target_size as nat) == whole,
        decreases short_of(content@, target_size as nat),
    {
        proof {
            lemma_line_is_longer(content@);
        }
        let ghost before = content@;
        content.append("Lorem ipsum dolor sit amet, consectetur adipiscing elit. ");
        let line = byte_len(content.as_str()) / 60;
        content.append("Line ");
        content.append(decimal_text(line as u64).as_str());
        content.append("\n");
        assert(content@ == with_line(before));
    }
    assert(content@ == whole);
    let all = chars_of(content.as_str());
    let n = all.len();
    let total = byte_len(content.as_str());
    let mut at: usize = 0;
    let mut size: usize = 0;
    let ghost cut = choose|k: int| 0 <= k <= whole.len() && byte_len_of(#[trigger] whole.take(k)) == target_size;
    assert(whole.take(0) =~= seq![]);
    assert(encode_utf8(seq![]) =~= seq![]);
    assert(whole.take(whole.len() as int) =~= whole);
    while size < target_size
        invariant
            all@ == whole,
            n == all@.len(),
            0 <= at <= cut <= whole.len(),
            byte_len_of(whole.take(cut)) == target_size,
            size == byte_len_of(whole.take(at as int)),
            total == byte_len_of(whole),
            whole.take(whole.len() as int) == whole,
        decreases cut - at,
    {
        proof {
            lemma_one_more(whole, at as int);
            lemma_take_grows(whole, at + 1, whole.len() as int);
        }
        size = size + char_width(all[at]);
        at = at + 1;
        proof {
            lemma_take_grows(whole, at as int, cut);
        }
    }
    proof {
        lemma_take_grows(whole, at as int, cut);
    }
    assert(all@.subrange(0, at as int) =~= whole.take(at as int));
    text_of(&slice_of(&all, 0, at))
}

// ----- the tree ------------------------------------------------------------

pub open spec fn template_text(i: nat) -> Seq<char> {
    let k = i % 8;
    if k == 0 {
        "Important document content"@
    } else if k == 1 {
        "Project source code"@
    } else if k == 2 {
        "Configuration settings"@
    } else if k == 3 {
        "Data analysis results"@
    } else if k == 4 {
        "Meeting notes"@
    } else if k == 5 {
        "Photo metadata"@
    } else if k == 6 {
        "Build artifacts"@
    } else {
        "Log file entries"@
    }
}

fn template(i: usize) -> (r: &'static str)
    ensures
        r@ == template_text(i as nat),
        is_ascii_chars(r@),
{
    proof {
        reveal_strlit("Important document content");
        reveal_strlit("Project source code");
        reveal_strlit("Configuration settings");
        reveal_strlit("Data analysis results");
        reveal_strlit("Meeting notes");
        reveal_strlit("Photo metadata");
        reveal_strlit("Build artifacts");
        reveal_strlit("Log file entries");
    }
    let k = i % 8;
    if k == 0 {
        "Important document content"
    } else if k == 1 {
        "Project source code"
    } else if k == 2 {
        "Configuration settings"
    } else if k == 3 {
        "Data analysis results"
    } else if k == 4 {
        "Meeting notes"
    } else if k == 5 {
        "Photo metadata"
    } else if k == 6 {
        "Build artifacts"
    } else {
        "Log file entries"
    }
}

/// The directories of the tree, below its root.
pub fn demo_dirs() -> (r: Vec<String>)
    ensures
        views(r@) == seq![
            "documents"@,
            "pictures"@,
            "downloads"@,
            "temp"@,
            "backup/old"@,
            "projects/project1/src"@,
            "projects/project2/src"@,
        ],
{
    let r = vec![
        "documents".to_owned(),
        "pictures".to_owned(),
        "downloads".to_owned(),
        "temp".to_owned(),
        "backup/old".to_owned(),
        "projects/project1/src".to_owned(),
        "projects/project2/src".to_owned(),
    ];
    assert(views(r@) =~= seq![
        "documents"@,
        "pictures"@,
        "downloads"@,
        "temp"@,
        "backup/old"@,
        "projects/project1/src"@,
        "projects/project2/src"@,
    ]);
    r
}

pub open spec fn original_dir(i: nat) -> Seq<char> {
    let k = i % 4;
    if k == 0 {
        "documents"@
    } else if k == 1 {
        "pictures"@
    } else if k == 2 {
        "projects/project1/src"@
    } else {
        "projects/project2/src"@
    }
}

/// The directory of the `j`-th duplicate of file `i`.
pub open spec fn duplicate_dir(i: nat, j: nat) -> Seq<char> {
    let k = j % 6;
    if k == 0 {
        "downloads"@
    } else if k == 1 {
        "temp"@
    } else if k == 2 {
        "backup"@
    } else if k == 3 {
        "backup/old"@
    } else if k == 4 {
        original_dir(i)
    } else {
        "downloads"@
    }
}

/// What the name of the `j`-th duplicate has after the file's number.
pub open spec fn duplicate_ending(j: nat) -> Seq<char> {
    let k = j % 6;
    if k == 0 {
        ".txt"@
    } else if k == 1 {
        "_temp.txt"@
    } else if k == 2 {
        "_copy.txt"@
    } else if k == 3 {
        " (1).txt"@
    } else if k == 4 {
        "_backup.txt"@
    } else {
        "_duplicate.txt"@
    }
}

pub open spec fn numbered_name(i: nat, ending: Seq<char>) -> Seq<char> {
    "file_"@ + decimal(i) + ending
}

/// Where file `i` goes under `base`.
pub open spec fn original_path(base: Seq<char>, i: nat) -> Seq<char> {
    join_of(join_of(base, original_dir(i)), numbered_name(i, ".txt"@))
}

/// Where the `j`-th duplicate of file `i` goes under `base`.
pub open spec fn duplicate_path(base: Seq<char>, i: nat, j: nat) -> Seq<char> {
    join_of(join_of(base, duplicate_dir(i, j)), numbered_name(i, duplicate_ending(j)))
}

fn original_folder(i: usize) -> (r: &'static str)
    ensures
        r@ == original_dir(i as nat),
{
    let k = i % 4;
    if k == 0 {
        "documents"
    } else if k == 1 {
        "pictures"
    } else if k == 2 {
        "projects/project1/src"
    } else {
        "projects/project2/src"
    }
}

fn duplicate_place(i: usize, j: usize) -> (r: (&'static str, &'static str))
    ensures
        r.0@ == duplicate_dir(i as nat, j as nat),
        r.1@ == duplicate_ending(j as nat),
{
    let k = j % 6;
    if k == 0 {
        ("downloads", ".txt")
    } else if k == 1 {
        ("temp", "_temp.txt")
    } else if k == 2 {
        ("backup", "_copy.txt")
    } else if k == 3 {
        ("backup/old", " (1).txt")
    } else if k == 4 {
        (original_folder(i), "_backup.txt")
    } else {
        ("downloads", "_duplicate.txt")
    }
}

fn placed_name(base: &str, dir: &str, i: usize, ending: &str) -> (r: String)
    ensures
        r@ == join_of(join_of(base@, dir@), numbered_name(i as nat, ending@)),
{
    let mut name = "file_".to_owned();
    name.append(decimal_text(i as u64).as_str());
    name.append(ending);
    join(join(base, dir).as_str(), name.as_str())
}

/// A file to be written.
#[derive(Debug)]
pub struct DemoFile {
    pub path: String,
    pub content: String,
}

/// File `i` of `size` bytes and its duplicates, which all have its content.
pub fn demo_group(base: &str, i: usize, duplicates: usize, size: usize) -> (r: Vec<DemoFile>)
    requires
        duplicates < usize::MAX,
    ensures
        r@.len() == duplicates + 1,
        r@[0].path@ == original_path(base@, i as nat),
        forall|j: int|
            0 <= j < duplicates ==> (#[trigger] r@[j + 1]).path@ == duplicate_path(base@, i as nat, j as nat),
        forall|k: int|
            0 <= k <= duplicates ==> {
                let c = (#[trigger] r@[k]).content@;
                let whole = padded(heading(template_text(i as nat), i as nat), size as nat);
                byte_len_of(c) == size && c.len() <= whole.len() && c == whole.take(c.len() as int)
            },
{
    let text = template(i);
    proof {
        ascii_contents_cut_anywhere(text@, size as nat, i as nat);
    }
    let content = generate_content(text, size, i);
    let mut files: Vec<DemoFile> = Vec::new();
    files.push(
        DemoFile {
            path: placed_name(base, original_folder(i), i, ".txt"),
            content: content.clone(),
        },
    );
    for j in 0..duplicates
        invariant
            files@.len() == j + 1,
            files@[0].path@ == original_path(base@, i as nat),
            forall|m: int|
                1 <= m <= j ==> (#[trigger] files@[m]).path@ == duplicate_path(
                    base@,
                    i as nat,
                    (m - 1) as nat,
                ),
            forall|m: int| 0 <= m <= j ==> (#[trigger] files@[m]).content@ == content@,
    {
        let (dir, ending) = duplicate_place(i, j);
        files.push(
            DemoFile { path: placed_name(base, dir, i, ending), content: content.clone() },
        );
    }
    files
}

/// Some files without duplicates, for variety.
pub fn unique_files(base: &str) -> (r: Vec<DemoFile>)
    ensures
        r@.len() == 3,
        r@[0].path@ == join_of(base@, "documents/readme.txt"@),
        r@[0].content@ == "This is a unique readme file"@,
        r@[1].path@ == join_of(base@, "projects/project1/TODO.txt"@),
        r@[1].content@ == "TODO: Implement features"@,
        r@[2].path@ == join_of(base@, "pictures/metadata.json"@),
        r@[2].content@ == "{\"camera\": \"Canon\", \"date\": \"2024-01-15\"}"@,
{
    let mut r: Vec<DemoFile> = Vec::new();
    r.push(
        DemoFile {
            path: join(base, "documents/readme.txt"),
            content: "This is a unique readme file".to_owned(),
        },
    );
    r.push(
        DemoFile {
            path: join(base, "projects/project1/TODO.txt"),
            content: "TODO: Implement features".to_owned(),
        },
    );
    r.push(
        DemoFile {
            path: join(base, "pictures/metadata.json"),
            content: "{\"camera\": \"Canon\", \"date\": \"2024-01-15\"}".to_owned(),
        },
    );
    r
}

/// How many files a tree holds.
#[derive(Debug, Clone, Copy, PartialEq, Eq, Structural)]
pub struct DemoCounts {
    pub total_files: usize,
    pub unique_files: usize,
    pub duplicate_files: usize,
    pub groups: usize,
}

/// The counts for a tree of `num_files` files with their duplicates.
pub fn demo_counts(num_files: usize, duplicates_per_file: usize) -> (r: DemoCounts)
    requires
        num_files * duplicates_per_file + num_files + 3 <= usize::MAX,
    ensures
        r.total_files == num_files * duplicates_per_file + num_files + 3,
        r.unique_files == num_files + 3,
        r.duplicate_files == num_files * duplicates_per_file,
        r.groups == num_files,
{
    assert(num_files * duplicates_per_file >= 0) by (nonlinear_arith)
        requires
            num_files >= 0,
            duplicates_per_file >= 0,
    ;
    let duplicate_files = num_files * duplicates_per_file;
    DemoCounts {
        total_files: duplicate_files + num_files + 3,
        unique_files: num_files + 3,
        duplicate_files,
        groups: num_files,
    }
}

/// The templates follow one another and repeat after eight.
pub proof fn templates_repeat_after_eight(n: nat)
    ensures
        template_text(8 * n) == "Important document content"@,
        template_text(8 * n + 1) == "Project source code"@,
        template_text(8 * n + 2) == "Configuration settings"@,
        template_text(8 * n + 3) == "Data analysis results"@,
        template_text(8 * n + 4) == "Meeting notes"@,
        template_text(8 * n + 5) == "Photo metadata"@,
        template_text(8 * n + 6) == "Build artifacts"@,
        template_text(8 * n + 7) == "Log file entries"@,
{
}

/// The originals go to four folders in turn.
pub proof fn originals_take_turns(n: nat)
    ensures
        original_dir(4 * n) == "documents"@,
        original_dir(4 * n + 1) == "pictures"@,
        original_dir(4 * n + 2) == "projects/project1/src"@,
        original_dir(4 * n + 3) == "projects/project2/src"@,
{
}

/// The duplicates take six places and endings in turn, one of them beside
/// the original.
pub proof fn duplicates_take_turns(base: Seq<char>, i: nat, n: nat)
    ensures
        original_path(base, i) == join_of(join_of(base, original_dir(i)), "file_"@ + decimal(i) + ".txt"@),
        duplicate_path(base, i, 6 * n) == join_of(join_of(base, "downloads"@), "file_"@ + decimal(i) + ".txt"@),
        duplicate_path(base, i, 6 * n + 1) == join_of(
            join_of(base, "temp"@),
            "file_"@ + decimal(i) + "_temp.txt"@,
        ),
        duplicate_path(base, i, 6 * n + 2) == join_of(
            join_of(base, "backup"@),
            "file_"@ + decimal(i) + "_copy.txt"@,
        ),
        duplicate_path(base, i, 6 * n + 3) == join_of(
            join_of(base, "backup/old"@),
            "file_"@ + decimal(i) + " (1).txt"@,
        ),
        duplicate_path(base, i, 6 * n + 4) == join_of(
            join_of(base, original_dir(i)),
            "file_"@ + decimal(i) + "_backup.txt"@,
        ),
        duplicate_path(base, i, 6 * n + 5) == join_of(
            join_of(base, "downloads"@),
            "file_"@ + decimal(i) + "_duplicate.txt"@,
        ),
{
}

/// A content begins with its heading and goes on with numbered lines until
/// it is long enough.
pub proof fn contents_grow_line_by_line(content: Seq<char>, target: nat, template: Seq<char>, seed: nat)
    ensures
        heading(template, seed) == "=== "@ + template + " ===\n\n"@ + "File ID: "@ + decimal(seed) + "\n"@
            + "Generated for dupscanner demo\n\n"@,
        encode_utf8(content).len() >= target ==> padded(content, target) == content,
        encode_utf8(content).len() < target ==> padded(content, target) == padded(
            content + "Lorem ipsum dolor sit amet, consectetur adipiscing elit. "@ + "Line "@ + decimal(
                encode_utf8(content + "Lorem ipsum dolor sit amet, consectetur adipiscing elit. "@).len() / 60,
            ) + "\n"@,
            target,
        ),
        content.is_prefix_of(padded(content, target)),
        encode_utf8(padded(content, target)).len() >= target,
    decreases short_of(content, target),
{
    let out = padded(content, target);
    if byte_len_of(content) >= target {
        assert(content.subrange(0, content.len() as int) == content);
    } else {
        let longer = with_line(content);
        lemma_line_is_longer(content);
        contents_grow_line_by_line(longer, target, template, seed);
        assert(longer.subrange(0, content.len() as int) == content);
        assert(out.subrange(0, content.len() as int) == content) by {
            assert(out.subrange(0, longer.len() as int) == longer);
            assert forall|i: int| 0 <= i < content.len() implies out[i] == content[i] by {
                assert(out.subrange(0, longer.len() as int)[i] == longer[i]);
                assert(longer.subrange(0, content.len() as int)[i] == content[i]);
            }
        }
    }
}

} // verus!
