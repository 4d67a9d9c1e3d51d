use fwumious_wabbit::options::{select_run_mode, CommandFlags, ConfigError, RunMode};

fn flags() -> CommandFlags {
    CommandFlags {
        data: false,
        initial_regressor: false,
        final_regressor: false,
        save_resume: false,
        daemon: false,
        convert_inference_regressor: false,
    }
}

#[test]
fn final_regressor_needs_save_resume() {
    let f = CommandFlags { final_regressor: true, data: true, ..flags() };
    assert_eq!(select_run_mode(f), Err(ConfigError::FinalRegressorWithoutSaveResume));
    let g = CommandFlags { save_resume: true, ..f };
    assert_eq!(select_run_mode(g), Ok(RunMode::Train { from_initial_regressor: false }));
}

#[test]
fn serve_and_convert_need_initial_regressor() {
    assert_eq!(
        select_run_mode(CommandFlags { daemon: true, convert_inference_regressor: true, ..flags() }),
        Err(ConfigError::ServeWithoutInitialRegressor)
    );
    assert_eq!(
        select_run_mode(CommandFlags { daemon: true, initial_regressor: true, ..flags() }),
        Ok(RunMode::Serve)
    );
    assert_eq!(
        select_run_mode(CommandFlags { convert_inference_regressor: true, ..flags() }),
        Err(ConfigError::ConvertWithoutInitialRegressor)
    );
    assert_eq!(
        select_run_mode(CommandFlags {
            convert_inference_regressor: true,
            initial_regressor: true,
            ..flags()
        }),
        Ok(RunMode::ConvertInference)
    );
}

#[test]
fn training_needs_data() {
    assert_eq!(select_run_mode(flags()), Err(ConfigError::TrainWithoutData));
    assert_eq!(
        select_run_mode(CommandFlags { data: true, initial_regressor: true, ..flags() }),
        Ok(RunMode::Train { from_initial_regressor: true })
    );
}
