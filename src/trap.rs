//! The user register image saved on entry to the kernel.
use vstd::prelude::*;

verus! {

/// Saved user state of a task, plus what the trap entry needs to get back
/// into the kernel.
#[derive(Debug)]
pub struct TrapContext {
    /// General-purpose registers x0..x31.
    pub x: Vec<usize>,
    /// Where user execution resumes.
    pub sepc: usize,
    /// Kernel address-space token.
    pub kernel_satp: usize,
    /// Top of the task's kernel stack.
    pub kernel_sp: usize,
    /// Address of the kernel's trap handler.
    pub trap_handler: usize,
}

impl TrapContext {
    pub open spec fn wf(&self) -> bool {
        self.x@.len() == 32
    }

    /// Sets the user stack pointer (x2).
    pub fn set_sp(&mut self, sp: usize)
        requires
            old(self).wf(),
        ensures
            final(self).wf(),
            final(self).x@ == old(self).x@.update(2, sp),
            final(self).sepc == old(self).sepc,
            final(self).kernel_satp == old(self).kernel_satp,
            final(self).kernel_sp == old(self).kernel_sp,
            final(self).trap_handler == old(self).trap_handler,
    {
        self.x.set(2, sp);
    }

    /// The first trap context of a task: it enters user mode at `entry`
    /// with stack `sp`, all other registers zero.
    pub fn app_init_context(
        entry: usize,
        sp: usize,
        kernel_satp: usize,
        kernel_sp: usize,
        trap_handler: usize,
    ) -> (r: Self)
        ensures
            r.wf(),
            r.x@ == Seq::new(32, |i: int| if i == 2 { sp } else { 0usize }),
            r.sepc == entry,
            r.kernel_satp == kernel_satp,
            r.kernel_sp == kernel_sp,
            r.trap_handler == trap_handler,
    {
        let mut x: Vec<usize> = Vec::new();
        let mut i: usize = 0;
        while i < 32
            invariant
                i <= 32,
                x@ == Seq::new(i as nat, |j: int| 0usize),
            decreases 32 - i,
        {
            x.push(0);
            i = i + 1;
            assert(x@ =~= Seq::new(i as nat, |j: int| 0usize));
        }
        let mut cx = Self { x, sepc: entry, kernel_satp, kernel_sp, trap_handler };
        cx.set_sp(sp);
        assert(cx.x@ =~= Seq::new(32, |i: int| if i == 2 { sp } else { 0usize }));
        cx
    }
}

} // verus!
