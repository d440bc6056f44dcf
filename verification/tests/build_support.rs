//! Build plans and kernel names.
use lightgpu::build_support::{
    compile, default_fatbin, env_key, fatbin, fatbin_entries, fatbin_modules, finished,
    kernel_file_candidates, kernel_names_in, known_kernel, toolkit_kernel_names,
    toolkit_kernels_cu, Environment, Outcome, Source, Step, DEFAULT_ARCHES,
};

fn environment() -> Environment {
    Environment {
        cuda: true,
        out_dir: "/out".to_string(),
        nvcc: None,
        arch: None,
        lineinfo: false,
    }
}

#[test]
fn plain_and_attributed_declarations_both_parse() {
    let src = r#"
extern "C" __global__ void plain_kernel(const float *a, float *b) { }
extern "C" __global__ void __launch_bounds__(256, 2) bounds_first(const float *a, float *b) { }
extern "C" __global__ void another_kernel(int n) { }
"#;
    let names = kernel_names_in(src);
    assert_eq!(names, vec!["plain_kernel", "bounds_first", "another_kernel"]);
}

#[test]
fn nested_parens_in_the_attribute_are_skipped() {
    let src = r#"extern "C" __global__ void __launch_bounds__(256, 2) one(int);"#;
    assert_eq!(kernel_names_in(src), vec!["one"]);
}

#[test]
fn attributes_with_nested_arguments_are_skipped() {
    let src = "extern \"C\" __global__ void __a__((1, (2)), 3) \t\n __b__()\u{a0}two_3(int);";
    assert_eq!(kernel_names_in(src), vec!["two_3"]);
}

#[test]
fn an_attribute_changes_no_name() {
    let rest = "k(int) { } extern \"C\" __global__ void m(int)";
    let plain = format!("extern \"C\" __global__ void {rest}");
    let attributed = format!("extern \"C\" __global__ void __x__(a, (b)) \n{rest}");
    assert_eq!(kernel_names_in(&plain), vec!["k", "m"]);
    assert_eq!(kernel_names_in(&attributed), kernel_names_in(&plain));
}

#[test]
fn malformed_declarations_give_an_empty_name() {
    assert_eq!(kernel_names_in("extern \"C\" __global__ void __a__ x()"), vec![""]);
    assert_eq!(kernel_names_in("extern \"C\" __global__ void __a__((1) x"), vec![""]);
    assert_eq!(kernel_names_in("extern \"C\" __global__ void "), vec![""]);
    assert_eq!(kernel_names_in("extern \"C\" __global__ void *p"), vec![""]);
    assert!(kernel_names_in("void plain(int)").is_empty());
    assert!(kernel_names_in("").is_empty());
}

#[test]
fn names_are_looked_up_in_the_source() {
    let src = "extern \"C\" __global__ void lg_a(int) extern \"C\" __global__ void lg_b(int)";
    assert_eq!(toolkit_kernel_names(Some(src)), vec!["lg_a", "lg_b"]);
    assert!(toolkit_kernel_names(None).is_empty());
    assert!(known_kernel("lg_b", Some(src)));
    assert!(!known_kernel("lg", Some(src)));
    assert!(!known_kernel("lg_a", None));
}

#[test]
fn prints_directives_without_the_feature() {
    let mut env = environment();
    env.cuda = false;
    let plan = fatbin("k.cu", "k.fatbin", &env);
    assert_eq!(
        plan.directives,
        vec![
            "cargo:rerun-if-changed=k.cu",
            "cargo:rerun-if-env-changed=NVCC",
            "cargo:rerun-if-env-changed=LA_CUDA_ARCH",
            "cargo:rerun-if-env-changed=LA_CUDA_LINEINFO",
        ]
    );
    assert!(plan.run.is_none());
}

#[test]
fn compiles_for_the_default_targets() {
    let run = fatbin("k.cu", "k.fatbin", &environment()).run.unwrap();
    assert_eq!(run.program, "nvcc");
    assert_eq!(run.output, "/out/k.fatbin");
    let args = vec![
        "-O3",
        "-std=c++17",
        "--fatbin",
        "--generate-code=arch=compute_61,code=sm_61",
        "--generate-code=arch=compute_75,code=sm_75",
        "--generate-code=arch=compute_80,code=sm_80",
        "--generate-code=arch=compute_80,code=compute_80",
        "--ftz=false",
        "--prec-div=true",
        "--prec-sqrt=true",
        "--fmad=true",
        "-o",
        "/out/k.fatbin",
        "k.cu",
    ];
    assert_eq!(run.args, args);
    assert_eq!(run.notice, format!("cargo:warning=nvcc {}", args.join(" ")));
    assert_eq!(DEFAULT_ARCHES.len(), 4);
}

#[test]
fn names_each_entry_in_a_flag_of_its_own() {
    let mut env = environment();
    env.nvcc = Some("/opt/nvcc".to_string());
    env.lineinfo = true;
    let entries = vec!["lg_a", "lg_b"];
    let run = fatbin_entries("k.cu", "k.fatbin", &entries, &env).run.unwrap();
    assert_eq!(run.program, "/opt/nvcc");
    assert_eq!(&run.args[7..11], ["--entries", "lg_a", "--entries", "lg_b"]);
    assert_eq!(&run.args[15..], ["-lineinfo", "-o", "/out/k.fatbin", "k.cu"]);
}

fn generated(list: &str) -> Vec<String> {
    let mut env = environment();
    env.arch = Some(list.to_string());
    let run = compile("k.cu", "k.fatbin", None, &env).run.unwrap();
    run.args.into_iter().filter(|a| a.starts_with("--generate-code=")).collect()
}

#[test]
fn architecture_pairs_override_the_targets() {
    assert_eq!(
        generated("compute_61,code=sm_61, compute_90 , code=sm_90"),
        vec![
            "--generate-code=arch=compute_61,code=sm_61",
            "--generate-code=arch=compute_90,code=sm_90",
        ]
    );
    assert_eq!(generated("arch=compute_61"), vec!["--generate-code=arch=compute_61"]);
    assert_eq!(
        generated("a,,b"),
        vec!["--generate-code=a", "--generate-code=", "--generate-code=b"]
    );
    assert_eq!(generated(" \t").len(), 4);
    assert_eq!(generated("").len(), 4);
}

#[test]
fn plans_one_module_for_each_source() {
    let sources = vec![
        Source { path: "a.cu", out_name: "toolkit.fatbin", entries: Some(vec!["lg_copy"]) },
        Source { path: "b.cu", out_name: "my-swin.fatbin", entries: None },
    ];
    let plans = fatbin_modules(&sources, &environment());
    assert_eq!(plans.len(), 2);
    assert_eq!(plans[0].path, "/out/toolkit.fatbin");
    assert_eq!(
        plans[0].line,
        "cargo:rustc-env=LIGHTGPU_FATBIN_TOOLKIT=/out/toolkit.fatbin"
    );
    assert_eq!(
        plans[1].line,
        "cargo:rustc-env=LIGHTGPU_FATBIN_MY_SWIN=/out/my-swin.fatbin"
    );
    assert!(plans[0].plan.run.as_ref().unwrap().args.contains(&"--entries".to_string()));
    assert!(!plans[1].plan.run.as_ref().unwrap().args.contains(&"--entries".to_string()));
}

#[test]
fn keys_are_capitals_digits_and_underscores() {
    assert_eq!(env_key("swin.fatbin"), "SWIN");
    assert_eq!(env_key("a.b-c1.fatbin.fatbin"), "A_B_C1");
    assert_eq!(env_key(".fatbin"), "");
    assert_eq!(env_key("x.fatbin2"), "X_FATBIN2");
    assert_eq!(env_key("\u{e9}t\u{e9}"), "_T_");
}

#[test]
fn default_file_is_below_the_crate() {
    let run = default_fatbin("/crate", &environment()).run.unwrap();
    assert_eq!(run.args.last().unwrap(), "/crate/cuda/kernels.cu");
    assert_eq!(run.output, "/out/la_kernels.fatbin");
}

#[test]
fn reports_what_came_of_a_run() {
    let entries = vec!["a", "b"];
    assert_eq!(
        finished("k.fatbin", Some(&entries), "nvcc", &Outcome::Written(10)).unwrap(),
        (10, "cargo:warning=k.fatbin: 10 bytes (2 of the file's kernels)".to_string())
    );
    assert_eq!(
        finished("k.fatbin", None, "nvcc", &Outcome::Written(0)).unwrap(),
        (0, "cargo:warning=k.fatbin: 0 bytes (all kernels)".to_string())
    );
    assert_eq!(
        finished("k.fatbin", None, "nvcc", &Outcome::Failed("exit status: 2".to_string()))
            .unwrap_err(),
        "nvcc failed with status exit status: 2"
    );
    assert_eq!(
        finished("k.fatbin", None, "nvcc", &Outcome::NotRun("not found".to_string()))
            .unwrap_err(),
        "could not run `nvcc`: not found (set NVCC=/path/to/nvcc, or build with \
         --no-default-features for the CPU-only path)"
    );
}

#[test]
fn looks_for_the_kernel_file_in_order() {
    let places = kernel_file_candidates(Some("/x/k.cu"), Some("/gpu/"), Some("/m"));
    assert_eq!(
        places,
        vec![
            "/gpu/cuda/kernels.cu",
            "/x/k.cu",
            "/m/../lightgpu/cuda/kernels.cu",
            "/m/../../lightgpu/cuda/kernels.cu",
            "/m/third_party/lightgpu/cuda/kernels.cu",
        ]
    );
    let present = vec![false, false, true, true, false];
    assert_eq!(
        toolkit_kernels_cu(Some("/x/k.cu"), Some("/gpu/"), Some("/m"), &present).unwrap(),
        "/m/../lightgpu/cuda/kernels.cu"
    );
    let present = vec![true, true, true, true, true];
    assert_eq!(
        toolkit_kernels_cu(Some("/x/k.cu"), Some("/gpu/"), Some("/m"), &present).unwrap(),
        "/gpu/cuda/kernels.cu"
    );
    assert!(toolkit_kernels_cu(None, None, Some("/m"), &vec![false, false, false]).is_none());
    assert!(toolkit_kernels_cu(None, None, None, &vec![]).is_none());
    assert_eq!(kernel_file_candidates(None, Some(""), None), vec!["cuda/kernels.cu"]);
}

#[test]
fn an_old_output_is_removed_before_the_compiler_runs() {
    let env = |cuda| Environment {
        cuda,
        out_dir: "/out".to_string(),
        nvcc: None,
        arch: Some("sm_90".to_string()),
        lineinfo: false,
    };
    let plan = fatbin("k.cu", "k.fatbin", &env(true));
    let steps = plan.steps();
    assert_eq!(steps.len(), 7);
    assert_eq!(steps[0], Step::Print("cargo:rerun-if-changed=k.cu".to_string()));
    assert_eq!(steps[4], Step::Remove("/out/k.fatbin".to_string()));
    let run = plan.run.as_ref().unwrap();
    assert_eq!(steps[5], Step::Print(run.notice.clone()));
    assert_eq!(
        steps[6],
        Step::Start { program: "nvcc".to_string(), args: run.args.clone() }
    );
    let steps = fatbin("k.cu", "k.fatbin", &env(false)).steps();
    assert_eq!(steps.len(), 4);
    assert!(steps.iter().all(|s| matches!(s, Step::Print(_))));
}

#[test]
fn names_of_sources_add_up_line_by_line() {
    let a = "extern \"C\" __global__ void one(int n) {}\n\
             extern \"C\" __global__ void __launch_bounds__(32, (2)) two(int n) {}";
    let b = "// more\nextern \"C\" __global__ void three(float* x);";
    let mut expected = kernel_names_in(a);
    expected.extend(kernel_names_in(b));
    assert_eq!(expected, vec!["one", "two", "three"]);
    assert_eq!(kernel_names_in(&format!("{a}\n{b}")), expected);
    assert_eq!(kernel_names_in(&format!("{b}\n{a}")), vec!["three", "one", "two"]);
}
