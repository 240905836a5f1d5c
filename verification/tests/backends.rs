//! The built-in C emitter, backends and requests.

use pvm_decompiler::decompile::{
    choose_backend, decompile_builtin, detect_available_backends, is_readable, llvm_tool_names,
    DecompilerBackend,
};
use pvm_decompiler::llm_refine::{
    extract_code_block, extract_openrouter_content, find_api_key, get_api_key, is_llm_available, read_reply,
    refine_pseudo_code, request_body, summarize, Refinement, Stage,
};
use pvm_decompiler::llvm_lift::module::sanitize_name;

#[test]
fn builtin_backend_is_always_there() {
    assert_eq!(
        detect_available_backends(false, false, false),
        vec![DecompilerBackend::Builtin]
    );
    assert_eq!(
        detect_available_backends(true, true, true),
        vec![
            DecompilerBackend::RetDec,
            DecompilerBackend::Rellic,
            DecompilerBackend::LlvmCbe,
            DecompilerBackend::Builtin
        ]
    );
}

#[test]
fn preferred_backend_is_taken_where_it_is_there() {
    let available = detect_available_backends(false, true, false);
    assert_eq!(
        choose_backend(&available, Some(DecompilerBackend::Builtin)),
        DecompilerBackend::Builtin
    );
    assert_eq!(
        choose_backend(&available, Some(DecompilerBackend::RetDec)),
        DecompilerBackend::Rellic
    );
    assert_eq!(choose_backend(&available, None), DecompilerBackend::Rellic);
}

#[test]
fn backend_names_are_read_back() {
    for b in detect_available_backends(true, true, true) {
        assert_eq!(DecompilerBackend::from_name(b.name()), Some(b));
    }
    assert_eq!(DecompilerBackend::from_name("ghidra"), None);
}

#[test]
fn llvm_tools_are_tried_newest_first() {
    let names = llvm_tool_names("llvm-as");
    assert_eq!(names.first().unwrap(), "llvm-as-19");
    assert_eq!(names.last().unwrap(), "llvm-as");
    assert_eq!(names.len(), 7);
}

#[test]
fn builtin_emitter_writes_c() {
    let ir = "; a comment\n\
              declare void @pvm_trap() noreturn\n\
              define i64 @main() {\n\
              entry:\n  \
                %r0 = alloca i64, align 8\n  \
                store i64 7, ptr %r0, align 8\n  \
                br label %bb_0000\n\
              bb_0000:\n  \
                br i1 %t1, label %bb_0004, label %bb_0008\n  \
                call void @pvm_ecalli(i32 3)\n  \
                switch i32 %t2, label %sw [ ]\n  \
                call void @pvm_trap()\n  \
                unreachable\n  \
                ret i64 %t3\n\
              }\n";
    assert!(is_readable(ir));
    let result = decompile_builtin(ir);
    assert_eq!(result.backend_used, DecompilerBackend::Builtin);
    assert_eq!(result.warnings.len(), 1);
    let body = result.c_code.split("int64_t main").nth(1).unwrap();
    assert_eq!(
        body,
        "(void) {\n    \
             int64_t r0, r1, r2, r3, r4, r5, r6, r7, r8, r9, r10, r11, r12;\n    \
             r0 = r1 = r2 = r3 = r4 = r5 = r6 = r7 = r8 = r9 = r10 = r11 = r12 = 0;\n    \
             r0 = 7;\n    \
             goto bb_0000;\n\
         bb_0000:\n    \
             if (...) goto bb_0004; else goto bb_0008;\n    \
             pvm_ecalli(3);\n    \
             /* switch statement */;\n    \
             pvm_trap();\n    \
             __builtin_unreachable();\n    \
             return %t3;\n\
         }\n\n"
    );
}

#[test]
fn call_without_opening_parenthesis_is_not_readable() {
    let ir = "define i64 @f() {\nx = call void @pvm_ecalli)(i32 3\n}\n";
    assert!(!is_readable(ir));
}

#[test]
fn names_become_identifiers() {
    assert_eq!(sanitize_name("func_1"), "func_1");
    assert_eq!(sanitize_name("a-b c"), "a_b_c");
    assert_eq!(sanitize_name("\u{e9}t\u{e9}!"), "\u{e9}t\u{e9}_");
}

#[test]
fn prompt_is_escaped_in_a_request() {
    assert_eq!(
        request_body("a\"b\\c\nd\te\r"),
        "{\"model\":\"google/gemini-3.1-flash-lite-preview\",\"messages\":[{\"role\":\"user\",\
         \"content\":\"a\\\"b\\\\c\\nd\\te\\r\"}]}"
    );
}

#[test]
fn escaping_is_undone_by_reading() {
    let prompt = "line\n\"quoted\" \\ tab\t";
    let content = extract_openrouter_content(&request_body(prompt)).unwrap();
    assert_eq!(content, prompt);
}

#[test]
fn content_of_a_reply_is_read() {
    assert_eq!(
        extract_openrouter_content("{\"choices\":[{\"message\":{\"content\":\"a\\u0041\\/\\q\"}}]}"),
        Some("aA/\\q".to_string())
    );
    // a surrogate stands for nothing
    assert_eq!(
        extract_openrouter_content("\"content\":\"x\\ud800y\""),
        Some("xy".to_string())
    );
    assert_eq!(
        extract_openrouter_content("\"content\":\"\\u00e9\""),
        Some("\u{e9}".to_string())
    );
    assert_eq!(extract_openrouter_content("\"content\":\"open"), None);
    assert_eq!(extract_openrouter_content("nothing"), None);
}

#[test]
fn code_blocks_are_found() {
    assert_eq!(
        extract_code_block("text ```c\nint x;\n``` more"),
        Some("int x;".to_string())
    );
    assert_eq!(
        extract_code_block("```rust\nfn f() {}\n```"),
        Some("fn f() {}".to_string())
    );
    assert_eq!(
        extract_code_block("int main() {\n}\n"),
        Some("int main() {\n}".to_string())
    );
    assert_eq!(extract_code_block("no code here"), None);
}

#[test]
fn pseudo_code_without_code_is_an_error() {
    assert_eq!(
        refine_pseudo_code("main", "sorry"),
        Err("Failed to extract pseudo-code from LLM response for main".to_string())
    );
    assert_eq!(refine_pseudo_code("main", "```\nx\n```"), Ok("x".to_string()));
}

#[test]
fn suggestions_are_summarized() {
    assert_eq!(summarize(""), "");
    assert_eq!(summarize("one\n\n"), "one");
    assert_eq!(summarize("one\n \ntwo"), "one; two");
    assert_eq!(summarize("1\n2\n3"), "3 improvements applied");
}

#[test]
fn api_key_is_found_in_a_file() {
    assert_eq!(
        find_api_key("OTHER=1\n OPENROUTER_API_KEY= \"abc\" \n"),
        Some("abc".to_string())
    );
    assert_eq!(
        find_api_key("OPENROUTER_API_KEY=''\nOPENROUTER_API_KEY='k'\n"),
        Some("k".to_string())
    );
    assert_eq!(find_api_key("KEY=1"), None);
}

#[test]
fn environment_comes_before_files() {
    let files = vec![
        "A=1".to_string(),
        "OPENROUTER_API_KEY=near".to_string(),
        "OPENROUTER_API_KEY=far".to_string(),
    ];
    assert_eq!(get_api_key(Some("own"), &files), Ok("own".to_string()));
    assert_eq!(get_api_key(Some(""), &files), Ok("near".to_string()));
    assert_eq!(get_api_key(None, &files), Ok("near".to_string()));
    assert_eq!(
        get_api_key(None, &vec![]),
        Err("OPENROUTER_API_KEY not found. Set it in environment or .env file.".to_string())
    );
    assert!(is_llm_available(Some("own"), &vec![]));
    assert!(!is_llm_available(Some(""), &vec!["A=1".to_string()]));
}

#[test]
fn reply_without_content_is_an_error() {
    assert_eq!(read_reply("\"content\":\"hi\""), Ok("hi".to_string()));
    assert_eq!(
        read_reply("{}"),
        Err("Failed to parse OpenRouter response: {}".to_string())
    );
}

#[test]
fn refinement_stops_when_the_referee_is_content() {
    let mut r = Refinement::start("int main() {}", "ctx");
    assert!(r.prompt().unwrap().contains("int main() {}"));
    assert_eq!(r.reply("QUALITY: EXCELLENT"), Ok(()));
    assert!(r.prompt().is_none());
    let done = r.finish();
    assert_eq!(done.rounds_completed, 0);
    assert_eq!(done.refined_code, "int main() {}");
}

#[test]
fn refinement_takes_three_rounds_at_most() {
    let mut r = Refinement::start("int main() {}", "ctx");
    let mut replies = 0;
    while r.prompt().is_some() {
        let reply = match r.stage {
            Stage::Operator => "```c\nint better_main(void) { return 0; }\n```",
            _ => "[NAMING] x",
        };
        assert_eq!(r.reply(reply), Ok(()));
        replies += 1;
    }
    assert_eq!(replies, 9);
    let done = r.finish();
    assert_eq!(done.rounds_completed, 3);
    assert_eq!(done.improvements[0], "Round 1: [NAMING] x");
    assert_eq!(done.raw_decompiler_output, "int main() {}");
    assert_eq!(done.refined_code, "int better_main(void) { return 0; }");
}

#[test]
fn refinement_keeps_code_when_the_improvement_is_too_short() {
    let mut r = Refinement::start("int main() {}", "ctx");
    for reply in ["issue", "advice", "```c\nint x;\n```"] {
        assert_eq!(r.reply(reply), Ok(()));
    }
    assert!(r.prompt().is_none());
    assert_eq!(r.finish().refined_code, "int main() {}");
}

#[test]
fn refinement_fails_without_code() {
    let mut r = Refinement::start("int main() {}", "ctx");
    assert_eq!(r.reply("issue"), Ok(()));
    assert_eq!(r.reply("advice"), Ok(()));
    assert_eq!(
        r.reply("none"),
        Err("Failed to extract code from LLM response".to_string())
    );
}
