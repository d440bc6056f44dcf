//! The driver and the layer on top of it.
use lightgpu::ffi::{
    c_text, chk, error_name, library_name, load_failure, Loading, Resolver, Wanted,
    CUDA_ERROR_NOT_FOUND, SYMBOLS, SYMBOL_COUNT,
};
use lightgpu::vm::context::{sync_call, vram_call};
use lightgpu::vm::{
    copy_d2d, copy_dtoh, copy_htod, copy_htod_staged, free_vram, init, sync, vram, Arg, Args, Call,
    DevBuf, DeviceQuery, Event, Given, Launch, Module, Reply, Setup, Staged, Staging,
    STAGING_CHUNK,
};

fn ok(given: Given) -> Reply {
    Reply { code: 0, name: None, given }
}

fn failed(code: i32, name: &str) -> Reply {
    Reply { code, name: Some(name.to_string()), given: Given::Nothing }
}

#[test]
fn names_the_failure_of_a_call() {
    assert!(chk(0, "cuInit", None).is_ok());
    assert_eq!(
        chk(2, "cuMemAlloc", Some("CUDA_ERROR_OUT_OF_MEMORY")).unwrap_err(),
        "cuMemAlloc failed: CUDA_ERROR_OUT_OF_MEMORY"
    );
    assert_eq!(chk(999, "cuInit", None).unwrap_err(), "cuInit failed: CUresult 999");
    assert_eq!(error_name(-7, None), "CUresult -7");
    assert_eq!(error_name(i32::MIN, None), format!("CUresult {}", i32::MIN));
}

#[test]
fn names_the_library() {
    assert_eq!(library_name(None), "libcuda.so.1");
    assert_eq!(library_name(Some("/x/libcuda.so")), "/x/libcuda.so");
    assert_eq!(
        load_failure("libcuda.so.1", None),
        "cannot load CUDA driver: libcuda.so.1 not found (set LA_CUDA_LIB)"
    );
    assert_eq!(
        load_failure("libcuda.so.1", Some("no such file")),
        "cannot load CUDA driver: no such file (set LA_CUDA_LIB)"
    );
}

#[test]
fn texts_with_a_nul_are_no_c_strings() {
    assert!(c_text("lg_noop").is_ok());
    for text in ["a\0b", "\0", "\u{e9}\0"] {
        let at = text.bytes().position(|b| b == 0).unwrap();
        let expected = format!("nul byte found in provided data at position: {at}");
        assert_eq!(c_text(text).unwrap_err(), expected);
    }
}

/// Asks a library that has the symbols of `lookup`.
fn resolve(lookup: impl Fn(&str) -> u64) -> Result<Vec<u64>, String> {
    let mut r = Resolver::new();
    while let Some(name) = r.wanted() {
        r.answer(lookup(name))?;
    }
    Ok(r.found)
}

#[test]
fn prefers_the_second_version() {
    let found = resolve(|name| if name.ends_with("_v2") { 2 } else { 1 }).unwrap();
    assert_eq!(found.len(), SYMBOL_COUNT);
    for i in 0..SYMBOL_COUNT {
        assert_eq!(found[i], if SYMBOLS[i].0.ends_with("_v2") { 2 } else { 1 });
    }
    assert_eq!(found.iter().filter(|a| **a == 2).count(), 12);
}

#[test]
fn falls_back_to_the_plain_symbol() {
    let found = resolve(|name| if name.ends_with("_v2") { 0 } else { 1 }).unwrap();
    assert_eq!(found, vec![1; SYMBOL_COUNT]);
}

#[test]
fn names_the_first_missing_symbol() {
    assert_eq!(resolve(|_| 0).unwrap_err(), "libcuda: missing symbol cuInit");
    assert_eq!(
        resolve(|name| if name.starts_with("cuMemAlloc") { 0 } else { 1 }).unwrap_err(),
        "libcuda: missing symbol cuMemAlloc"
    );
}

#[test]
fn binds_the_context_of_device_0() {
    let mut s = Setup::new(Ok(()));
    assert_eq!(s.call(), Some(Call::Init { flags: 0 }));
    assert!(s.reply(&ok(Given::Nothing)).is_none());
    assert_eq!(s.call(), Some(Call::DeviceGet { ordinal: 0 }));
    s.reply(&ok(Given::Number(3)));
    assert_eq!(s.call(), Some(Call::DevicePrimaryCtxRetain { dev: 3 }));
    s.reply(&ok(Given::Handle(77)));
    assert_eq!(s.call(), Some(Call::CtxSetCurrent { ctx: 77 }));
    s.reply(&ok(Given::Nothing));
    assert_eq!(s.call(), Some(Call::CtxSetFlags { flags: 4 }));
    assert!(s.outcome().is_none());
    assert_eq!(
        s.reply(&failed(708, "CUDA_ERROR_PRIMARY_CONTEXT_ACTIVE")).unwrap(),
        "lightgpu: cuCtxSetFlags failed: CUDA_ERROR_PRIMARY_CONTEXT_ACTIVE (spin-wait stays)"
    );
    assert!(s.call().is_none());
    assert_eq!(s.outcome(), Some(Ok(())));
    assert!(init(&s).is_ok());
    s.reply(&failed(1, "late"));
    assert!(init(&s).is_ok());
}

#[test]
fn keeps_the_first_failure_of_the_setup() {
    let mut s = Setup::new(Ok(()));
    s.reply(&ok(Given::Nothing));
    s.reply(&failed(100, "CUDA_ERROR_NO_DEVICE"));
    assert!(s.call().is_none());
    assert_eq!(init(&s).unwrap_err(), "cuDeviceGet failed: CUDA_ERROR_NO_DEVICE");
    s.reply(&ok(Given::Nothing));
    assert_eq!(init(&s).unwrap_err(), "cuDeviceGet failed: CUDA_ERROR_NO_DEVICE");
    let none = Setup::new(Err("no driver".to_string()));
    assert_eq!(init(&none).unwrap_err(), "no driver");
}

#[test]
fn queries_the_device() {
    let mut q = DeviceQuery::new();
    let replies = vec![
        ok(Given::Number(1)),
        ok(Given::Text("Some Card".to_string())),
        ok(Given::Numbers(6, 1)),
        ok(Given::Number(20)),
        ok(Given::Number(49152)),
        ok(Given::Handle(5)),
        ok(Given::Nothing),
    ];
    let calls = vec![
        Call::DeviceGet { ordinal: 0 },
        Call::DeviceGetName { len: 128, dev: 1 },
        Call::DeviceComputeCapability { dev: 1 },
        Call::DeviceGetAttribute { attribute: 16, dev: 1 },
        Call::DeviceGetAttribute { attribute: 8, dev: 1 },
        Call::DevicePrimaryCtxRetain { dev: 1 },
        Call::CtxSetCurrent { ctx: 5 },
    ];
    for (reply, call) in replies.iter().zip(calls) {
        assert_eq!(q.call(), Some(call));
        q.reply(reply);
    }
    assert!(q.call().is_none());
    let d = q.device().unwrap();
    assert_eq!((d.dev, d.ctx, d.name.as_str()), (1, 5, "Some Card"));
    assert_eq!((d.cc_major, d.cc_minor, d.sm_count, d.smem_per_block), (6, 1, 20, 49152));
}

#[test]
fn a_failed_query_names_the_call() {
    let whats = [
        "cuDeviceGet",
        "cuDeviceGetName",
        "cuDeviceComputeCapability",
        "cuDeviceGetAttribute(SM count)",
        "cuDeviceGetAttribute(smem)",
        "cuDevicePrimaryCtxRetain",
        "cuCtxSetCurrent",
    ];
    for (i, what) in whats.iter().enumerate() {
        let mut q = DeviceQuery::new();
        for _ in 0..i {
            q.reply(&ok(Given::Nothing));
        }
        q.reply(&failed(1, "X"));
        assert!(q.call().is_none());
        q.reply(&ok(Given::Nothing));
        assert_eq!(q.device().unwrap_err(), format!("{what} failed: X"));
    }
}

#[test]
fn looks_a_kernel_up_once() {
    let mut m = Module::load(&ok(Given::Handle(9))).unwrap();
    assert_eq!(m.func_call("lg_a"), Some(Call::ModuleGetFunction { module: 9 }));
    assert_eq!(m.func("lg_a", &ok(Given::Handle(1))).unwrap(), 1);
    assert_eq!(m.func_call("lg_a"), None);
    assert_eq!(m.func("lg_a", &failed(1, "X")).unwrap(), 1);
    assert_eq!(m.get("lg_b", &ok(Given::Handle(2))).unwrap(), 2);
    assert_eq!(m.get("lg_a", &failed(1, "X")).unwrap(), 1);
    assert_eq!(
        m.func("lg_c", &failed(500, "CUDA_ERROR_NOT_FOUND")).unwrap_err(),
        "cuModuleGetFunction(lg_c) failed: CUDA_ERROR_NOT_FOUND"
    );
    assert!(m.func_call("lg_c").is_some());
    assert_eq!(m.func_call("a\0"), None);
    assert_eq!(
        m.func("a\0", &ok(Given::Handle(3))).unwrap_err(),
        "nul byte found in provided data at position: 1"
    );
    assert_eq!(
        Module::load(&failed(200, "CUDA_ERROR_INVALID_IMAGE")).unwrap_err(),
        "cuModuleLoadData failed: CUDA_ERROR_INVALID_IMAGE"
    );
    assert_eq!(Module::load_call(), Call::ModuleLoadData);
}

#[test]
fn tells_a_missing_kernel_from_a_failure() {
    let mut m = Module::load(&ok(Given::Handle(9))).unwrap();
    let (found, line) = m.has("lg_a", &failed(CUDA_ERROR_NOT_FOUND, "CUDA_ERROR_NOT_FOUND"));
    assert!(!found && line.is_none());
    let (found, line) = m.has("lg_a", &failed(201, "CUDA_ERROR_INVALID_CONTEXT"));
    assert!(!found);
    assert_eq!(
        line.unwrap(),
        "lightgpu: cuModuleGetFunction(lg_a) probing failed: CUDA_ERROR_INVALID_CONTEXT"
    );
    let (found, line) = m.has("lg_a", &ok(Given::Handle(4)));
    assert!(found && line.is_none());
    assert_eq!(m.func("lg_a", &failed(1, "X")).unwrap(), 4);
    let (found, line) = m.has("lg_a", &failed(201, "X"));
    assert!(found && line.is_none());
    let (found, line) = m.has("a\0", &ok(Given::Handle(4)));
    assert!(!found && line.is_none());
}

#[test]
fn allocates_at_least_one_byte() {
    assert_eq!(DevBuf::allocate_call(0), Call::MemAlloc { bytes: 1 });
    assert_eq!(DevBuf::allocate_call(100), Call::MemAlloc { bytes: 100 });
    let b = DevBuf::allocate(0, &ok(Given::Handle(64))).unwrap();
    assert_eq!((b.ptr, b.bytes), (64, 0));
    assert_eq!(b.zeros_call(), Call::MemsetD8 { dst: 64, value: 0, bytes: 1 });
    assert_eq!(
        DevBuf::allocate(8, &failed(2, "CUDA_ERROR_OUT_OF_MEMORY")).unwrap_err(),
        "cuMemAlloc failed: CUDA_ERROR_OUT_OF_MEMORY"
    );
    let b = DevBuf::allocate(8, &ok(Given::Handle(64))).unwrap();
    assert_eq!(b.zeros_call(), Call::MemsetD8 { dst: 64, value: 0, bytes: 8 });
    assert_eq!(b.upload_call(4), Call::MemcpyHtoD { dst: 64, bytes: 4 });
    assert_eq!(b.download_call(8), Call::MemcpyDtoH { src: 64, bytes: 8 });
    assert!(b.upload(&ok(Given::Nothing)).is_ok());
    assert_eq!(b.upload(&failed(1, "X")).unwrap_err(), "cuMemcpyHtoD failed: X");
    assert_eq!(b.download(&failed(1, "X")).unwrap_err(), "cuMemcpyDtoH failed: X");
    let b = b.zeros(&ok(Given::Nothing)).unwrap();
    assert_eq!(b.zeros(&failed(1, "X")).unwrap_err(), "cuMemsetD8 failed: X");
}

#[test]
fn single_calls_name_themselves() {
    let bad = failed(1, "X");
    assert_eq!(copy_htod(&bad).unwrap_err(), "cuMemcpyHtoD failed: X");
    assert_eq!(copy_dtoh(&bad).unwrap_err(), "cuMemcpyDtoH failed: X");
    assert_eq!(copy_d2d(&bad).unwrap_err(), "cuMemcpyDtoD failed: X");
    assert_eq!(sync(&bad).unwrap_err(), "cuCtxSynchronize failed: X");
    assert_eq!(vram(&bad).unwrap_err(), "cuMemGetInfo failed: X");
    assert_eq!(free_vram(&bad).unwrap_err(), "cuMemGetInfo failed: X");
    assert_eq!(vram(&ok(Given::Sizes(3, 8))).unwrap(), (3, 8));
    assert_eq!(free_vram(&ok(Given::Sizes(3, 8))).unwrap(), 3);
    assert_eq!(sync_call(), Call::CtxSynchronize);
    assert_eq!(vram_call(), Call::MemGetInfo);
    assert!(sync(&ok(Given::Nothing)).is_ok());
}

#[test]
fn events_are_recorded_on_the_default_stream() {
    assert_eq!(Event::new_call(), Call::EventCreate { flags: 0 });
    let e = Event::new(&ok(Given::Handle(6))).unwrap();
    assert_eq!(e.record_call(), Call::EventRecord { event: 6, stream: 0 });
    assert_eq!(e.synchronize_call(), Call::EventSynchronize { event: 6 });
    assert!(e.record(&ok(Given::Nothing)).is_ok());
    assert_eq!(e.record(&failed(1, "X")).unwrap_err(), "cuEventRecord failed: X");
    assert_eq!(e.synchronize(&failed(1, "X")).unwrap_err(), "cuEventSynchronize failed: X");
    assert_eq!(Event::new(&failed(1, "X")).unwrap_err(), "cuEventCreate failed: X");
}

#[test]
fn builds_arguments_in_order() {
    let mut a = Args::new();
    a.ptr(1).ptr(2).i32(-3).i64(4).f32_bits(1.5f32.to_bits());
    assert_eq!(
        a.slots,
        vec![
            Arg::Ptr(1),
            Arg::Ptr(2),
            Arg::I32(-3),
            Arg::I64(4),
            Arg::F32(1.5f32.to_bits()),
        ]
    );
    let l = Launch::new((7, 1, 2), (256, 3, 4)).shared(99);
    let mut m = Module::load(&ok(Given::Handle(3))).unwrap();
    let ready = a.launch_call(&mut m, "lg_noop", l, &ok(Given::Handle(5))).unwrap();
    assert_eq!(
        ready.call,
        Call::LaunchKernel {
            function: 5,
            grid: (7, 1, 2),
            block: (256, 3, 4),
            shared: 99,
            stream: 0
        }
    );
    assert_eq!(ready.args, &a.slots);
    assert_eq!(m.func_call("lg_noop"), None);
    assert!(a.launch("lg_noop", l, &ok(Given::Nothing)).is_ok());
    assert_eq!(
        a.launch("lg_noop", l, &failed(701, "CUDA_ERROR_LAUNCH_OUT_OF_RESOURCES")).unwrap_err(),
        "cuLaunchKernel(lg_noop) failed: CUDA_ERROR_LAUNCH_OUT_OF_RESOURCES grid=(7,1,2) \
         block=(256,3,4) shared=99"
    );
}

#[test]
fn launches_nothing_that_is_not_found() {
    let a = Args::default();
    assert!(a.slots.is_empty());
    let l = Launch::new((1, 1, 1), (1, 1, 1));
    let mut m = Module::load(&ok(Given::Handle(3))).unwrap();
    assert_eq!(
        a.launch_call(&mut m, "k", l, &failed(500, "CUDA_ERROR_NOT_FOUND")).unwrap_err(),
        "cuModuleGetFunction(k) failed: CUDA_ERROR_NOT_FOUND"
    );
    assert_eq!(
        a.launch_call(&mut m, "k\0", l, &ok(Given::Handle(5))).unwrap_err(),
        "nul byte found in provided data at position: 1"
    );
    assert_eq!(m.func_call("k"), Some(Call::ModuleGetFunction { module: 3 }));
    // A handle that is known needs no second answer.
    assert_eq!(m.get("k", &ok(Given::Handle(5))).unwrap(), 5);
    let ready = a.launch_call(&mut m, "k", l, &failed(1, "X")).unwrap();
    assert!(matches!(ready.call, Call::LaunchKernel { function: 5, .. }));
    assert!(ready.args.is_empty());
}

#[test]
fn staging_is_at_least_one_chunk() {
    assert_eq!(STAGING_CHUNK, 64 << 20);
    assert_eq!(Staging::new(5).len(), STAGING_CHUNK);
    assert_eq!(Staging::new(STAGING_CHUNK + 1).len(), STAGING_CHUNK + 1);
    let mut s = Staging::chunked();
    assert_eq!(s.len(), STAGING_CHUNK);
    assert!(!s.is_empty());
    s.as_mut_bytes()[3] = 9;
    assert_eq!(s.as_bytes()[3], 9);
    assert_eq!(s.as_bytes()[4], 0);
}

#[test]
fn uploads_in_chunks() {
    let mut stage = Staging::chunked();
    let len = STAGING_CHUNK + 1000;
    let src: Vec<u8> = (0..len).map(|i| (i % 251) as u8).collect();
    let mut device = vec![0u8; len];
    let mut state = Staged::new(4096);
    let mut calls = Vec::new();
    while let Some(call) = copy_htod_staged(&mut state, &src, &mut stage).unwrap() {
        match call {
            Call::MemcpyHtoD { dst, bytes } => {
                let at = (dst - 4096) as usize;
                device[at..at + bytes].copy_from_slice(&stage.as_bytes()[..bytes]);
                calls.push((at, bytes));
            }
            other => panic!("{other:?}"),
        }
    }
    assert_eq!(calls, vec![(0, STAGING_CHUNK), (STAGING_CHUNK, 1000)]);
    assert!(device == src);
    let mut done = Staged::new(0);
    assert!(copy_htod_staged(&mut done, &[], &mut stage).unwrap().is_none());
}

/// Loads a driver that has the symbols of `lookup`.
fn load(loading: &mut Loading, named: Option<&str>, lookup: impl Fn(&str) -> u64) {
    loading.ask(named);
    loop {
        let address = match loading.wanted() {
            None => break,
            Some(Wanted::Library(_)) => None,
            Some(Wanted::Symbol(s)) => Some(lookup(s)),
        };
        match address {
            None => loading.opened(),
            Some(a) => loading.answer(a),
        }
    }
}

#[test]
fn the_driver_is_loaded_once() {
    let mut loading = Loading::new();
    assert!(loading.outcome().is_none());
    assert!(loading.wanted().is_none());
    loading.ask(Some("/x/libcuda.so"));
    assert!(matches!(loading.wanted(), Some(Wanted::Library("/x/libcuda.so"))));
    load(&mut loading, Some("/y/libcuda.so"), |s| if s.ends_with("_v2") { 0 } else { 7 });
    let (lib, entry) = loading.outcome().unwrap().unwrap();
    assert_eq!(lib, "/x/libcuda.so");
    assert_eq!(entry, &vec![7u64; SYMBOL_COUNT]);
    load(&mut loading, None, |_| 9);
    loading.refused(Some("gone"));
    loading.answer(0);
    let (lib, entry) = loading.outcome().unwrap().unwrap();
    assert_eq!((lib, entry[31]), ("/x/libcuda.so", 7));
}

#[test]
fn a_failed_load_stays_failed() {
    let mut loading = Loading::new();
    loading.ask(None);
    assert!(matches!(loading.wanted(), Some(Wanted::Library("libcuda.so.1"))));
    loading.refused(None);
    let text = "cannot load CUDA driver: libcuda.so.1 not found (set LA_CUDA_LIB)";
    assert_eq!(loading.outcome().unwrap().unwrap_err(), text);
    load(&mut loading, Some("/x"), |_| 1);
    assert_eq!(loading.outcome().unwrap().unwrap_err(), text);

    let mut loading = Loading::new();
    load(&mut loading, None, |s| if s.starts_with("cuMemAlloc") { 0 } else { 1 });
    assert_eq!(loading.outcome().unwrap().unwrap_err(), "libcuda: missing symbol cuMemAlloc");

    let mut loading = Loading::new();
    load(&mut loading, Some("a\0b"), |_| 1);
    assert_eq!(
        loading.outcome().unwrap().unwrap_err(),
        "nul byte found in provided data at position: 1"
    );
}
