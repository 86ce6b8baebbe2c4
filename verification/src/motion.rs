//! Application-owned motion preference: the system setting, and an explicit
//! override that takes precedence over it.
use vstd::prelude::*;
use crate::text::{join2, owned};

verus! {

/// How the application chooses between reduced and full motion.
#[derive(Clone, Copy, Debug, PartialEq, Eq, Structural)]
pub enum MotionMode {
    /// Follow the system preference.
    System,
    /// Always reduce motion.
    Reduced,
    /// Always animate fully.
    Full,
}

impl Default for MotionMode {
    fn default() -> (r: Self)
        ensures
            r == MotionMode::System,
    {
        MotionMode::System
    }
}

/// What the system reports about its motion preference.
#[derive(Debug)]
pub enum MotionSource {
    /// The preference is still loading.
    Starting,
    /// The system reported its preference.
    Available { reduced: bool },
    /// The preference cannot be observed.
    Unavailable { message: String },
}

/// A motion source, as plain values.
pub enum MotionSourceView {
    Starting,
    Available { reduced: bool },
    Unavailable { message: Seq<char> },
}

impl MotionSource {
    pub open spec fn model(&self) -> MotionSourceView {
        match self {
            MotionSource::Starting => MotionSourceView::Starting,
            MotionSource::Available { reduced } => MotionSourceView::Available { reduced: *reduced },
            MotionSource::Unavailable { message } => MotionSourceView::Unavailable {
                message: message@,
            },
        }
    }

    /// A copy of this source.
    pub fn duplicate(&self) -> (r: MotionSource)
        ensures
            r.model() == self.model(),
    {
        match self {
            MotionSource::Starting => MotionSource::Starting,
            MotionSource::Available { reduced } => MotionSource::Available { reduced: *reduced },
            MotionSource::Unavailable { message } => MotionSource::Unavailable {
                message: message.clone(),
            },
        }
    }
}

/// The effective motion preference.
#[derive(Debug)]
pub struct MotionPreference {
    pub mode: MotionMode,
    pub reduced: bool,
    pub source: MotionSource,
}

impl Default for MotionPreference {
    /// Decorative motion stays off until the system preference is known.
    fn default() -> (r: Self)
        ensures
            r.mode == MotionMode::System,
            r.reduced,
            r.source.model() == MotionSourceView::Starting,
    {
        MotionPreference { mode: MotionMode::System, reduced: true, source: MotionSource::Starting }
    }
}

/// Whether motion is reduced under `mode` when the system reports `source`,
/// or `None` when `System` mode cannot be honoured.
pub open spec fn reduced_under(mode: MotionMode, source: MotionSourceView) -> Option<bool> {
    match mode {
        MotionMode::Full => Some(false),
        MotionMode::Reduced => Some(true),
        MotionMode::System => match source {
            MotionSourceView::Available { reduced } => Some(reduced),
            _ => None,
        },
    }
}

impl MotionPreference {
    /// Records a new system report. In `System` mode an available report
    /// decides whether motion is reduced; losing the source keeps the
    /// effective value. An explicit override is never changed.
    pub fn source_changed(&mut self, source: MotionSource)
        ensures
            final(self).mode == old(self).mode,
            final(self).source.model() == source.model(),
            final(self).reduced == (match source.model() {
                MotionSourceView::Available { reduced } => if old(self).mode == MotionMode::System {
                    reduced
                } else {
                    old(self).reduced
                },
                _ => old(self).reduced,
            }),
    {
        if self.mode == MotionMode::System {
            if let MotionSource::Available { reduced } = source {
                self.reduced = reduced;
            }
        }
        self.source = source;
    }

    /// Selects a mode. `Full` and `Reduced` always apply; `System` applies only
    /// while the system preference is available, and otherwise fails with the
    /// state unchanged.
    pub fn set_mode(&mut self, mode: MotionMode) -> (r: Result<(), String>)
        ensures
            final(self).source.model() == old(self).source.model(),
            match reduced_under(mode, old(self).source.model()) {
                Some(reduced) => {
                    &&& r is Ok
                    &&& final(self).mode == mode
                    &&& final(self).reduced == reduced
                },
                None => {
                    &&& r is Err
                    &&& final(self).mode == old(self).mode
                    &&& final(self).reduced == old(self).reduced
                    &&& old(self).source.model() == MotionSourceView::Starting ==> r->Err_0@
                        == "system-motion-unavailable: preference is still loading"@
                    &&& forall|m: Seq<char>|
                        old(self).source.model() == (MotionSourceView::Unavailable { message: m })
                            ==> r->Err_0@ == "system-motion-unavailable: "@ + m
                },
            },
    {
        let reduced = match mode {
            MotionMode::Full => false,
            MotionMode::Reduced => true,
            MotionMode::System => match &self.source {
                MotionSource::Available { reduced } => *reduced,
                MotionSource::Starting => {
                    return Err(owned("system-motion-unavailable: preference is still loading"));
                },
                MotionSource::Unavailable { message } => {
                    return Err(join2("system-motion-unavailable: ", message.as_str()));
                },
            },
        };
        self.mode = mode;
        self.reduced = reduced;
        Ok(())
    }

    /// A copy of this preference.
    pub fn duplicate(&self) -> (r: MotionPreference)
        ensures
            r.mode == self.mode,
            r.reduced == self.reduced,
            r.source.model() == self.source.model(),
    {
        MotionPreference { mode: self.mode, reduced: self.reduced, source: self.source.duplicate() }
    }
}

/// An explicit override is authoritative: system reports never change the
/// effective value while the mode is `Full` or `Reduced`.
pub proof fn law_override_ignores_system(
    mode: MotionMode,
    reduced: bool,
    report: MotionSourceView,
)
    requires
        mode != MotionMode::System,
    ensures
        (match report {
            MotionSourceView::Available { reduced: r } => if mode == MotionMode::System {
                r
            } else {
                reduced
            },
            _ => reduced,
        }) == reduced,
        reduced_under(mode, report) == Some(mode == MotionMode::Reduced),
{
}

/// `System` mode follows the system: whatever the system reports, choosing
/// `System` gives exactly the effective value that an explicit choice of
/// the reported preference gives, and the one a report received while in
/// `System` mode installs.
pub proof fn law_system_mode_follows_the_report(reduced: bool, old_reduced: bool)
    ensures
        reduced_under(MotionMode::System, MotionSourceView::Available { reduced }) == Some(reduced),
        reduced_under(MotionMode::System, MotionSourceView::Available { reduced }) == reduced_under(
            if reduced {
                MotionMode::Reduced
            } else {
                MotionMode::Full
            },
            MotionSourceView::Available { reduced: old_reduced },
        ),
{
}

} // verus!
