//! The language a file extension names.

use vstd::prelude::*;

verus! {

/// The parser language codeix assigns to a file extension.
pub open spec fn language_of_extension(ext: Seq<char>) -> Option<Seq<char>> {
    if ext == "py"@ || ext == "pyi"@ || ext == "pyw"@ {
        Some("python"@)
    } else if ext == "rs"@ {
        Some("rust"@)
    } else if ext == "js"@ || ext == "mjs"@ || ext == "cjs"@ || ext == "jsx"@ {
        Some("javascript"@)
    } else if ext == "ts"@ || ext == "mts"@ || ext == "cts"@ {
        Some("typescript"@)
    } else if ext == "tsx"@ {
        Some("tsx"@)
    } else if ext == "go"@ {
        Some("go"@)
    } else if ext == "java"@ {
        Some("java"@)
    } else if ext == "c"@ || ext == "h"@ {
        Some("c"@)
    } else if ext == "cpp"@ || ext == "cc"@ || ext == "cxx"@ || ext == "hpp"@ || ext == "hxx"@
        || ext == "hh"@ || ext == "h++"@ {
        Some("cpp"@)
    } else if ext == "rb"@ || ext == "rake"@ || ext == "gemspec"@ {
        Some("ruby"@)
    } else if ext == "cs"@ {
        Some("csharp"@)
    } else if ext == "html"@ || ext == "htm"@ {
        Some("html"@)
    } else if ext == "vue"@ {
        Some("vue"@)
    } else if ext == "svelte"@ {
        Some("svelte"@)
    } else if ext == "astro"@ {
        Some("astro"@)
    } else if ext == "md"@ || ext == "markdown"@ {
        Some("markdown"@)
    } else {
        None
    }
}

/// `codeix::parser::languages::detect_language`: the language of a file
/// extension, as the table `language_of_extension` spells out (the same
/// table as codeix's `match`).
#[verifier::external_body]
pub(crate) fn detect_language(extension: &str) -> (r: Option<&'static str>)
    ensures
        match r {
            Some(l) => language_of_extension(extension@) == Some(l@),
            None => language_of_extension(extension@) is None,
        },
{
    codeix::parser::languages::detect_language(extension)
}

} // verus!
