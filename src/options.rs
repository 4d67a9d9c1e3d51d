use vstd::prelude::*;

verus! {

/// Which command-line options were given.
#[derive(Clone, Copy, Debug, PartialEq, Eq, Structural)]
pub struct CommandFlags {
    pub data: bool,
    pub initial_regressor: bool,
    pub final_regressor: bool,
    pub save_resume: bool,
    pub daemon: bool,
    pub convert_inference_regressor: bool,
}

/// What a run does.
#[derive(Clone, Copy, Debug, PartialEq, Eq, Structural)]
pub enum RunMode {
    /// Serve predictions from the initial regressor.
    Serve,
    /// Load the initial regressor and save it for inference only.
    ConvertInference,
    /// Train over the data, starting from the initial regressor when one is given.
    Train { from_initial_regressor: bool },
}

/// Why a combination of options is refused.
#[derive(Clone, Copy, Debug, PartialEq, Eq, Structural)]
pub enum ConfigError {
    /// `--final_regressor` was given without `--save_resume`.
    FinalRegressorWithoutSaveResume,
    /// Serving was asked for without `--initial_regressor`.
    ServeWithoutInitialRegressor,
    /// Conversion was asked for without `--initial_regressor`.
    ConvertWithoutInitialRegressor,
    /// Training was asked for without `--data`.
    TrainWithoutData,
}

/// The mode that a set of options selects, or the first reason to refuse it.
pub open spec fn run_mode_of(f: CommandFlags) -> Result<RunMode, ConfigError> {
    if f.final_regressor && !f.save_resume {
        Err(ConfigError::FinalRegressorWithoutSaveResume)
    } else if f.daemon {
        if f.initial_regressor {
            Ok(RunMode::Serve)
        } else {
            Err(ConfigError::ServeWithoutInitialRegressor)
        }
    } else if f.convert_inference_regressor {
        if f.initial_regressor {
            Ok(RunMode::ConvertInference)
        } else {
            Err(ConfigError::ConvertWithoutInitialRegressor)
        }
    } else if f.data {
        Ok(RunMode::Train { from_initial_regressor: f.initial_regressor })
    } else {
        Err(ConfigError::TrainWithoutData)
    }
}

/// Selects what a run does from the options given. A final regressor needs
/// `--save_resume`; serving takes precedence over conversion, conversion over
/// training; serving and conversion need an initial regressor, training needs data.
pub fn select_run_mode(f: CommandFlags) -> (r: Result<RunMode, ConfigError>)
    ensures
        r == run_mode_of(f),
{
    if f.final_regressor && !f.save_resume {
        Err(ConfigError::FinalRegressorWithoutSaveResume)
    } else if f.daemon {
        if f.initial_regressor {
            Ok(RunMode::Serve)
        } else {
            Err(ConfigError::ServeWithoutInitialRegressor)
        }
    } else if f.convert_inference_regressor {
        if f.initial_regressor {
            Ok(RunMode::ConvertInference)
        } else {
            Err(ConfigError::ConvertWithoutInitialRegressor)
        }
    } else if f.data {
        Ok(RunMode::Train { from_initial_regressor: f.initial_regressor })
    } else {
        Err(ConfigError::TrainWithoutData)
    }
}

} // verus!
