//! The language-tag to file-extension table: a fixed lookup used when a
//! fence-open line declares the language of a code block.

use vstd::prelude::*;
use crate::text::str_eq;

verus! {

/// Extension used for an empty, whitespace-only or unrecognized tag.
pub open spec fn fallback_extension() -> Seq<char> {
    "md"@
}

/// Whether `tag` is one of the language tags the table knows.
pub open spec fn known_tag(tag: Seq<char>) -> bool {
    ||| tag == "python"@
    ||| tag == "javascript"@
    ||| tag == "typescript"@
    ||| tag == "c"@
    ||| tag == "c++"@
    ||| tag == "c#"@
    ||| tag == "html"@
    ||| tag == "css"@
    ||| tag == "go"@
    ||| tag == "rust"@
    ||| tag == "php"@
    ||| tag == "ruby"@
    ||| tag == "swift"@
    ||| tag == "kotlin"@
    ||| tag == "java"@
}

/// The extension a language tag resolves to. Total: every tag outside the
/// table maps to the fallback extension.
pub open spec fn spec_extension_for(tag: Seq<char>) -> Seq<char> {
    if tag == "python"@ {
        "py"@
    } else if tag == "javascript"@ {
        "js"@
    } else if tag == "typescript"@ {
        "ts"@
    } else if tag == "c"@ {
        "c"@
    } else if tag == "c++"@ {
        "cpp"@
    } else if tag == "c#"@ {
        "cs"@
    } else if tag == "html"@ {
        "html"@
    } else if tag == "css"@ {
        "css"@
    } else if tag == "go"@ {
        "go"@
    } else if tag == "rust"@ {
        "rs"@
    } else if tag == "php"@ {
        "php"@
    } else if tag == "ruby"@ {
        "rb"@
    } else if tag == "swift"@ {
        "swift"@
    } else if tag == "kotlin"@ {
        "kt"@
    } else if tag == "java"@ {
        "java"@
    } else {
        fallback_extension()
    }
}

/// Resolve a language tag to the extension of the file a code block is
/// persisted to. Unknown or empty tags get the fallback extension; no tag
/// is an error.
pub fn resolve_extension(tag: &str) -> (ext: String)
    ensures
        ext@ == spec_extension_for(tag@),
{
    if str_eq(tag, "python") {
        String::from_str("py")
    } else if str_eq(tag, "javascript") {
        String::from_str("js")
    } else if str_eq(tag, "typescript") {
        String::from_str("ts")
    } else if str_eq(tag, "c") {
        String::from_str("c")
    } else if str_eq(tag, "c++") {
        String::from_str("cpp")
    } else if str_eq(tag, "c#") {
        String::from_str("cs")
    } else if str_eq(tag, "html") {
        String::from_str("html")
    } else if str_eq(tag, "css") {
        String::from_str("css")
    } else if str_eq(tag, "go") {
        String::from_str("go")
    } else if str_eq(tag, "rust") {
        String::from_str("rs")
    } else if str_eq(tag, "php") {
        String::from_str("php")
    } else if str_eq(tag, "ruby") {
        String::from_str("rb")
    } else if str_eq(tag, "swift") {
        String::from_str("swift")
    } else if str_eq(tag, "kotlin") {
        String::from_str("kt")
    } else if str_eq(tag, "java") {
        String::from_str("java")
    } else {
        String::from_str("md")
    }
}

/// Resolution is a total round trip on the table: a tag present in the
/// table resolves to its documented extension, which is never the
/// fallback, and every tag absent from the table resolves to the
/// fallback — never to an error.
pub proof fn lemma_resolution_total(tag: Seq<char>)
    ensures
        !known_tag(tag) ==> spec_extension_for(tag) == fallback_extension(),
        known_tag(tag) ==> spec_extension_for(tag) != fallback_extension(),
{
    broadcast use vstd::string::group_string_axioms;

    reveal_strlit("md");
    reveal_strlit("py");
    reveal_strlit("js");
    reveal_strlit("ts");
    reveal_strlit("c");
    reveal_strlit("cpp");
    reveal_strlit("cs");
    reveal_strlit("html");
    reveal_strlit("css");
    reveal_strlit("go");
    reveal_strlit("rs");
    reveal_strlit("php");
    reveal_strlit("rb");
    reveal_strlit("swift");
    reveal_strlit("kt");
    reveal_strlit("java");
    assert("md"@[0] == 'm');
    assert("py"@[0] != "md"@[0]);
    assert("js"@[0] != "md"@[0]);
    assert("ts"@[0] != "md"@[0]);
    assert("c"@[0] != "md"@[0]);
    assert("cpp"@[0] != "md"@[0]);
    assert("cs"@[0] != "md"@[0]);
    assert("html"@[0] != "md"@[0]);
    assert("css"@[0] != "md"@[0]);
    assert("go"@[0] != "md"@[0]);
    assert("rs"@[0] != "md"@[0]);
    assert("php"@[0] != "md"@[0]);
    assert("rb"@[0] != "md"@[0]);
    assert("swift"@[0] != "md"@[0]);
    assert("kt"@[0] != "md"@[0]);
    assert("java"@[0] != "md"@[0]);
}

} // verus!
