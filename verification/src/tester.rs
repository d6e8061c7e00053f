//! A short logging session that exercises margins and indicators.

use vstd::prelude::*;

use crate::log::{increased_margin, line_bytes, margin_text, DataTypeIndicator, Logger};

verus! {

/// Logs a process line, widens the margin, then logs an error line.
pub fn launch_test<L: Logger>(logger: &mut L)
    ensures
        final(logger).entries() == old(logger).entries().push(
            margin_text(old(logger).margin() as nat) + DataTypeIndicator::Process.text()
                + "ALARIC!"@,
        ).push(
            margin_text(increased_margin(old(logger).margin()) as nat)
                + DataTypeIndicator::Error.text() + "0x0"@,
        ),
        final(logger).margin() == increased_margin(old(logger).margin()),
        old(logger).failed() ==> final(logger).failed(),
        !final(logger).failed() ==> final(logger).sent() == old(logger).sent() + line_bytes(
            margin_text(old(logger).margin() as nat) + DataTypeIndicator::Process.text()
                + "ALARIC!"@,
        ) + line_bytes(
            margin_text(increased_margin(old(logger).margin()) as nat)
                + DataTypeIndicator::Error.text() + "0x0"@,
        ),
{
    logger.log_process("ALARIC!");
    logger.increase_margin();
    logger.log_error("0x0");
}

} // verus!
