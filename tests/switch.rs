use yzos_core::context::{Context, CpuState};
use yzos_core::process::{KernelState, PidCounter, Process, Thread};

fn cpu(cr3: usize, rsp: usize) -> CpuState {
    CpuState { cr3, rflags: 0x202, rbx: 1, r12: 2, r13: 3, r14: 4, r15: 5, rbp: rsp, rsp }
}

#[test]
fn switch_installs_the_next_page_table_and_back() {
    let x = 0x1000;
    let y = 0x2000;
    let mut a = Context::new(x, 4096, vec![0u8; 64]);
    let mut b = Context::new(y, 8192, vec![0u8; 64]);
    let mut state = cpu(x, 777);
    a.switch_to(&b, &mut state);
    assert_eq!(state.cr3, y);
    assert_eq!(state.rsp, 8192);
    assert_eq!(state.rflags, 0);
    assert_eq!(a.get_cr3(), x);
    assert_eq!(a.get_rsp(), 777);
    b.switch_to(&a, &mut state);
    assert_eq!(state.cr3, x);
    assert_eq!(state, cpu(x, 777));
    assert_eq!(b.get_cr3(), y);
}

#[test]
fn push_then_pop_reads_back_the_word() {
    let mut c = Context::new(5, 1064, vec![0u8; 64]);
    c.push_stack(0xdead_beef);
    assert_eq!(c.get_rsp(), 1056);
    c.push_stack(42);
    assert_eq!(c.pop_stack(), 42);
    assert_eq!(c.pop_stack(), 0xdead_beef);
    assert_eq!(c.get_rsp(), 1064);
}

#[test]
fn context_setters() {
    let mut c = Context::new(5, 1064, vec![0u8; 64]);
    c.set_cr3(9);
    assert_eq!(c.get_cr3(), 9);
    c.set_stack(1032);
    assert_eq!(c.get_rsp(), 1032);
    let saved = Context::save_current_context(&cpu(3, 99));
    assert_eq!(saved.get_cr3(), 3);
    assert_eq!(saved.get_rsp(), 99);
}

#[test]
fn task_ids_increase() {
    let mut pids = PidCounter::new();
    let p1 = Process::new(&mut pids, 0x3000, 4096, vec![0u8; 4096]).unwrap();
    let p2 = Process::new(&mut pids, 0x3000, 8192, vec![0u8; 4096]).unwrap();
    assert_eq!(p1.pid(), 1);
    assert_eq!(p2.pid(), 2);
    let t = Thread::new(&mut pids, 4096, vec![0u8; 512]).unwrap();
    assert_eq!(t.tid(), 3);
    assert!(!t.is_started());
    assert_eq!(Thread::init_page_table(), 0);
}

#[test]
fn primed_stack_returns_into_start_then_entry_then_shutdown() {
    let mut pids = PidCounter::new();
    let mut p = Process::new(&mut pids, 0x3000, 4096, vec![0u8; 4096]).unwrap();
    p.set_context(0x1111, 0x2222, 0x3333);
    assert_eq!(p.context().get_rsp(), 4096 - 32);
    let mut other = Process::new(&mut pids, 0x4000, 8192, vec![0u8; 4096]).unwrap();
    let mut state = cpu(0x4000, 5000);
    assert!(other.switch_process(&p, &mut state));
    assert_eq!(state.cr3, 0x3000);
    assert_eq!(state.rsp, 4096 - 32);
    let mut same = cpu(0x3000, 1);
    let q = Process::new(&mut PidCounter::new(), 0, 4096, vec![0u8; 16]).unwrap();
    assert_eq!(q.pid(), p.pid());
    assert!(!p.switch_process(&q, &mut same));
    assert_eq!(same, cpu(0x3000, 1));
}

#[test]
fn dispatch_resumes_at_the_primed_entry() {
    let mut ks = KernelState::new();
    let mut kernel = Process::kernel(&cpu(0x1000, 600));
    let mut task = ks.spawn(0x2000, 8192, vec![0u8; 4096]).unwrap();
    task.set_context(0x1111, 0x2222, 0x3333);
    let mut state = cpu(0x1000, 600);
    let frame = kernel.dispatch_to(&mut task, &mut ks, &mut state).unwrap();
    assert_eq!(frame.rip, 0x2222);
    assert_eq!(frame.rsp, 8192 - 24);
    assert_eq!(frame.cs, 8);
    assert_eq!(frame.ss, 0);
    assert_eq!(state.cr3, 0x2000);
    assert_eq!(kernel.context().get_cr3(), 0x1000);
    assert_eq!(ks.active(), task.pid());
}

#[test]
fn dispatch_to_itself_does_nothing() {
    let mut ks = KernelState::new();
    let mut a = Process::kernel(&cpu(0x1000, 600));
    let mut b = Process::kernel(&cpu(0x2000, 700));
    let mut state = cpu(0x1000, 600);
    assert!(a.dispatch_to(&mut b, &mut ks, &mut state).is_none());
    assert_eq!(state, cpu(0x1000, 600));
    assert_eq!(ks.active(), 0);
}

#[test]
fn kernel_state_tracks_the_running_task() {
    let mut ks = KernelState::new();
    assert_eq!(ks.active(), 0);
    let mut kernel = Process::kernel(&cpu(0x1000, 600));
    let mut task = ks.spawn(0x2000, 8192, vec![0u8; 4096]).unwrap();
    assert_eq!(task.pid(), 1);
    task.set_context(0x1111, 0x2222, 0x3333);
    let mut state = cpu(0x1000, 600);
    let frame = kernel.dispatch_to(&mut task, &mut ks, &mut state).unwrap();
    assert_eq!(frame.rip, 0x2222);
    assert_eq!(ks.active(), 1);
    // the kernel task is no longer the running one
    assert!(kernel.dispatch_to(&mut task, &mut ks, &mut state).is_none());
    assert_eq!(ks.active(), 1);
}
