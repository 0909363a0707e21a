//! The driver's decision table.
//!
//! The external event loop only decodes platform events; what to do with
//! each — which phase range to run, which bus to forward to, when to
//! quit — is decided here, so the canonical `START → TICK → END → EXIT`
//! cycle and the event-routing rules live with the scheduler they drive.

use vstd::prelude::*;

verus! {

/// A platform occurrence, stripped to what the cycle cares about.
#[derive(Debug, Clone, Copy, PartialEq, Eq, Structural)]
pub enum PlatformEvent {
    /// The application was (re)started and may build its windowed state.
    Resumed,
    /// The platform asks for a frame.
    RedrawRequested,
    /// The platform asks the application to shut down.
    CloseRequested,
    /// Any other window event, to be forwarded to window-event readers.
    OtherWindowEvent,
    /// A device event, to be forwarded to device-event readers.
    DeviceEvent,
}

/// What the driver must do for one platform event.
#[derive(Debug, Clone, Copy, PartialEq, Eq, Structural)]
pub enum DriverAction {
    /// Insert the startup resources, then `run(START, TICK)`.
    RunStartToTick,
    /// `run(TICK, END)`, then ask the platform for the next frame.
    RunTickToEnd,
    /// `run(END, EXIT)`, then leave the event loop.
    RunEndToExit,
    /// Send the event through the window-event bus; no phases run.
    ForwardToWindowBus,
    /// Send the event through the device-event bus; no phases run.
    ForwardToDeviceBus,
}

/// The canonical driver sequence of the cycle: resume starts it, each
/// redraw ticks it, a close request ends it, and everything else only
/// feeds the event buses.
pub fn dispatch_platform_event(event: PlatformEvent) -> (r: DriverAction)
    ensures
        r == match event {
            PlatformEvent::Resumed => DriverAction::RunStartToTick,
            PlatformEvent::RedrawRequested => DriverAction::RunTickToEnd,
            PlatformEvent::CloseRequested => DriverAction::RunEndToExit,
            PlatformEvent::OtherWindowEvent => DriverAction::ForwardToWindowBus,
            PlatformEvent::DeviceEvent => DriverAction::ForwardToDeviceBus,
        },
{
    match event {
        PlatformEvent::Resumed => DriverAction::RunStartToTick,
        PlatformEvent::RedrawRequested => DriverAction::RunTickToEnd,
        PlatformEvent::CloseRequested => DriverAction::RunEndToExit,
        PlatformEvent::OtherWindowEvent => DriverAction::ForwardToWindowBus,
        PlatformEvent::DeviceEvent => DriverAction::ForwardToDeviceBus,
    }
}

} // verus!
